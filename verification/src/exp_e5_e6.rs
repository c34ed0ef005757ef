//! Experiment E5 & E6: CPU Head-to-Head Inference Benchmark + Training FLOP Audit.
//!
//! E5 (T4): Single-thread inference tokens/sec and latency at context lengths 1K-16K.
//!          Kill criterion: >5x wall-clock speedup over Transformer at 8K.
//!
//! E6 (T2): Actual forward+backward FLOPs/token measured directly.
//!          Kill criterion: FORGE reaches comparable val quality at <1/10 Transformer FLOPs.

use vstd::prelude::*;
use crate::arith::{
    Arith, lawful, one, s_count, s_equals, s_exceeds, s_larger, s_lit, s_minus, s_over,
};
use crate::forge_model::{ForgeBlockValues, ForgeModel, ForgeModelValues};
use crate::layer::zero_vec;
use crate::matvec::summed;
use crate::sequence::row_at;
use crate::stats::{Summary, is_summary, summary_of};
use crate::tensor::{lemma_row_bounds, row_of, zeros};
use crate::transformer_model::TransformerModel;
use crate::vectors::{all_of_len, rows_in, sum_vec};

verus! {

/// What an inference benchmark measured.
pub struct InferenceBenchResult<B: Arith> {
    pub model_name: String,
    pub context_len: usize,
    pub tokens_per_sec: B::T,
    pub p50_latency_us: B::T,
    pub p95_latency_us: B::T,
    pub p99_latency_us: B::T,
    pub flops_per_token: u64,
    pub rss_mb: B::T,
}

impl<A: Arith> TransformerModel<A> {
    /// A token at its position. Positions past the last share it.
    pub open spec fn placed(&self, tok: int, t: int) -> Seq<A::T> {
        let d = self.d_model as nat;
        let pos = if t < self.max_seq_len - 1 {
            t
        } else {
            self.max_seq_len - 1
        };
        summed::<A>(row_of(self.embeddings@, d, tok), row_of(self.pos_embeddings@, d, pos))
    }

    /// The inputs of block `l` for the tokens of a context of any length; for the number of
    /// blocks, the outputs of the last one.
    pub open spec fn context_hidden(&self, context: Seq<usize>, l: nat) -> Seq<Seq<A::T>>
        decreases l,
    {
        if l == 0 {
            Seq::new(context.len(), |t: int| self.placed(context[t] as int, t))
        } else {
            self.blocks@[l - 1].outputs(self.context_hidden(context, (l - 1) as nat))
        }
    }

    /// Recompute full attention over a whole context (reference O(N) behavior per token).
    /// Returns what comes out of the last block for the last token.
    pub fn probe_context(&self, context: &[usize]) -> (h: Vec<A::T>)
        requires
            lawful::<A>(),
            self.wf(),
            self.max_seq_len > 0,
            forall|t: int| 0 <= t < context@.len() ==> #[trigger] context@[t] < self.vocab_size,
        ensures
            context@.len() == 0 ==> h@ == zeros::<A>(self.d_model as nat),
            context@.len() > 0 ==> h@ == self.context_hidden(
                context@,
                self.n_layers as nat,
            ).last(),
    {
        let d: usize = self.d_model;
        let ghost x = context@;
        let mut hs: Vec<Vec<A::T>> = Vec::with_capacity(context.len());
        let mut t: usize = 0;
        while t < context.len()
            invariant
                lawful::<A>(),
                self.wf(),
                self.max_seq_len > 0,
                d == self.d_model,
                x == context@,
                t <= x.len(),
                forall|q: int| 0 <= q < x.len() ==> #[trigger] x[q] < self.vocab_size,
                hs@.len() == t,
                forall|q: int|
                    0 <= q < t ==> (#[trigger] hs@[q])@ == self.context_hidden(x, 0)[q]
                        && hs@[q]@.len() == d,
            decreases x.len() - t,
        {
            let tok: usize = context[t];
            let pos: usize = if t < self.max_seq_len - 1 {
                t
            } else {
                self.max_seq_len - 1
            };
            proof {
                assert(x[t as int] < self.vocab_size);
                lemma_row_bounds(self.vocab_size as nat, d as nat, tok as int);
                lemma_row_bounds(self.max_seq_len as nat, d as nat, pos as int);
            }
            hs.push(
                sum_vec::<A>(
                    row_at(self.embeddings.as_slice(), d, tok),
                    row_at(self.pos_embeddings.as_slice(), d, pos),
                ),
            );
            t += 1;
        }
        proof {
            assert(rows_in(hs@) =~= self.context_hidden(x, 0));
            assert forall|q: int| 0 <= q < rows_in(hs@).len() implies (
            #[trigger] rows_in(hs@)[q]).len() == d by {
                assert(hs@[q]@.len() == d);
            }
        }
        let n: usize = self.blocks.len();
        let mut l: usize = 0;
        while l < n
            invariant
                lawful::<A>(),
                self.wf(),
                l <= n,
                n == self.blocks@.len(),
                d == self.d_model,
                hs@.len() == x.len(),
                rows_in(hs@) == self.context_hidden(x, l as nat),
                all_of_len(rows_in(hs@), d as nat),
            decreases n - l,
        {
            assert(self.blocks@[l as int].wf());
            hs = self.blocks[l].run(&hs);
            l += 1;
        }
        match hs.pop() {
            Some(h) => {
                assert(self.context_hidden(x, n as nat).last() == h@);
                h
            },
            None => zero_vec::<A>(d),
        }
    }
}

/// On a context that the model has positions for, the probe comes to what training computes.
pub proof fn probes_see_what_training_sees<A: Arith>(
    model: TransformerModel<A>,
    context: Seq<usize>,
    l: nat,
)
    requires
        context.len() <= model.max_seq_len,
    ensures
        model.context_hidden(context, l) == model.hidden(context, l),
    decreases l,
{
    if l > 0 {
        probes_see_what_training_sees(model, context, (l - 1) as nat);
    } else {
        assert(model.context_hidden(context, 0) =~= model.hidden(context, 0));
    }
}

/// FLOPs per token of a Transformer decode: 2 * n_layers * (4d^2 + 2d*N)
pub open spec fn transformer_flops(n_layers: nat, d: nat, context_len: nat) -> nat {
    2 * n_layers * (4 * d * d + 2 * d * context_len)
}

/// FLOPs per token of a Transformer decode.
pub fn transformer_flops_per_token(n_layers: usize, d: usize, context_len: usize) -> (flops: u64)
    requires
        4 * d <= usize::MAX,
        2 * n_layers <= usize::MAX,
        4 * d * d + 2 * d * context_len <= usize::MAX,
        transformer_flops(n_layers as nat, d as nat, context_len as nat) <= usize::MAX,
    ensures
        flops == transformer_flops(n_layers as nat, d as nat, context_len as nat),
{
    assert(0 <= 4 * d * d && 0 <= 2 * d * context_len) by (nonlinear_arith)
        requires
            d >= 0,
            context_len >= 0,
    ;
    (2 * n_layers * (4 * d * d + 2 * d * context_len)) as u64
}

/// FLOPs per token of a FORGE decode, whatever the context: 2 * n_blocks * (4d^2 + k*d + 3*d_ff*d)
pub open spec fn forge_flops(n_blocks: nat, d: nat, k_total: nat, d_ff: nat) -> nat {
    2 * n_blocks * (4 * d * d + k_total * d + 3 * d_ff * d)
}

/// The slots of the memories of the first `n` blocks.
pub open spec fn slots_of<A: Arith>(blocks: Seq<ForgeBlockValues<A>>, n: nat) -> nat
    decreases n,
{
    if n == 0 {
        0
    } else {
        slots_of::<A>(blocks, (n - 1) as nat) + (match blocks[n - 1].mrm {
            Some(m) => m.k_fine + m.k_coarse,
            None => 0,
        })
    }
}

/// More blocks have more slots.
proof fn lemma_slots_grow<A: Arith>(blocks: Seq<ForgeBlockValues<A>>, k: nat, n: nat)
    requires
        k <= n,
    ensures
        slots_of::<A>(blocks, k) <= slots_of::<A>(blocks, n),
    decreases n - k,
{
    if k < n {
        lemma_slots_grow::<A>(blocks, k, (n - 1) as nat);
    }
}

impl<A: Arith> ForgeModel<A> {
    /// FLOPs per token of a decode step; it is the same for every context length.
    pub fn decode_flops_per_token(&self) -> (flops: u64)
        requires
            self.blocks@.len() > 0,
            slots_of::<A>(self@.blocks, self@.blocks.len()) <= usize::MAX,
            4 * self.d <= usize::MAX,
            3 * self.blocks@[0].d_ff <= usize::MAX,
            2 * self.blocks@.len() <= usize::MAX,
            4 * self.d * self.d + slots_of::<A>(self@.blocks, self@.blocks.len()) * self.d + 3
                * self.blocks@[0].d_ff * self.d <= usize::MAX,
            forge_flops(
                self@.blocks.len(),
                self@.d,
                slots_of::<A>(self@.blocks, self@.blocks.len()),
                self.blocks@[0].d_ff as nat,
            ) <= usize::MAX,
        ensures
            flops == forge_flops(
                self@.blocks.len(),
                self@.d,
                slots_of::<A>(self@.blocks, self@.blocks.len()),
                self.blocks@[0].d_ff as nat,
            ),
    {
        let n: usize = self.blocks.len();
        let ghost blocks = self@.blocks;
        let mut k_total: usize = 0;
        let mut l: usize = 0;
        while l < n
            invariant
                l <= n,
                n == self.blocks@.len(),
                blocks == self@.blocks,
                slots_of::<A>(blocks, n as nat) <= usize::MAX,
                k_total == slots_of::<A>(blocks, l as nat),
            decreases n - l,
        {
            assert(blocks[l as int] == self.blocks@[l as int]@);
            proof {
                lemma_slots_grow::<A>(blocks, (l + 1) as nat, n as nat);
            }
            k_total = k_total + match &self.blocks[l].mrm {
                Some(m) => m.k_fine + m.k_coarse,
                None => 0,
            };
            l += 1;
        }
        let d: usize = self.d;
        let d_ff: usize = self.blocks[0].d_ff;
        assert(0 <= 4 * d * d && 0 <= k_total * d && 0 <= 3 * d_ff * d) by (nonlinear_arith)
            requires
                d >= 0,
                k_total >= 0,
                d_ff >= 0,
        ;
        (2 * n * (4 * d * d + k_total * d + 3 * d_ff * d)) as u64
    }

    /// Decode one token at its position: it goes through all blocks, and their memories take it.
    /// Positions past the last share it.
    pub fn decode_token(&mut self, tok: usize, t: usize) -> (h: Vec<A::T>)
        requires
            lawful::<A>(),
            old(self)@.can_evaluate(1),
            tok < old(self).vocab_size,
        ensures
            ({
                let p = old(self)@.pass(tok as int, t as int);
                &&& final(self)@ == (ForgeModelValues {
                    blocks: p.blocks,
                    total_flops: old(self)@.total_flops + p.flops,
                    ..old(self)@
                })
                &&& h@ == p.h
            }),
    {
        proof {
            let m = self@;
            m.lemma_has_sizes(1);
            m.lemma_embed_len(tok as int, t as int);
            m.lemma_passage(m.embed(tok as int, t as int), 1, m.blocks.len());
            assert(0 <= 2 * m.vocab * m.d) by (nonlinear_arith);
        }
        let mut h = self.embed_token(tok, t);
        self.run_blocks(&mut h, Ghost(1));
        h
    }
}

/// Tokens per second where one token takes `total_us / n` microseconds.
pub open spec fn rate_of<B: Arith>(total_us: B::T, n: usize) -> B::T {
    s_over::<B>(s_lit::<B>(1000000, 0), s_over::<B>(total_us, s_count::<B>(n)))
}

/// The result holds the summary of some latencies.
pub open spec fn is_bench_result<B: Arith>(
    result: InferenceBenchResult<B>,
    latencies: Seq<B::T>,
) -> bool {
    exists|summary: Summary<B>|
        {
            &&& #[trigger] is_summary::<B>(latencies, summary)
            &&& result.tokens_per_sec == rate_of::<B>(summary.total, latencies.len() as usize)
            &&& result.p50_latency_us == summary.p50
            &&& result.p95_latency_us == summary.p95
            &&& result.p99_latency_us == summary.p99
        }
}

/// Report the latencies of a model at a context length.
pub fn bench_result<B: Arith>(
    model_name: &str,
    context_len: usize,
    latencies: &[B::T],
    flops_per_token: u64,
    rss_mb: B::T,
) -> (result: InferenceBenchResult<B>)
    requires
        lawful::<B>(),
        latencies@.len() > 0,
        latencies@.len() * 99 <= usize::MAX,
    ensures
        result.model_name@ == model_name@,
        result.context_len == context_len,
        result.flops_per_token == flops_per_token,
        result.rss_mb == rss_mb,
        is_bench_result::<B>(result, latencies@),
{
    let summary = summary_of::<B>(latencies);
    let mean = B::over(summary.total, B::count(latencies.len()));
    let result = InferenceBenchResult {
        model_name: model_name.to_string(),
        context_len,
        tokens_per_sec: B::over(B::lit(1000000, 0), mean),
        p50_latency_us: summary.p50,
        p95_latency_us: summary.p95,
        p99_latency_us: summary.p99,
        flops_per_token,
        rss_mb,
    };
    assert(is_summary::<B>(latencies@, summary));
    result
}

/// How often one rate goes into another, which counts as one where it is less.
pub open spec fn speedup_of<B: Arith>(fast: B::T, slow: B::T) -> B::T {
    s_over::<B>(fast, s_larger::<B>(slow, one::<B>()))
}

/// How often one rate goes into another, which counts as one where it is less.
pub fn speedup<B: Arith>(fast: B::T, slow: B::T) -> (r: B::T)
    requires
        lawful::<B>(),
    ensures
        r == speedup_of::<B>(fast, slow),
{
    B::over(fast, B::larger(slow, B::lit(1, 0)))
}

/// Whether a speedup passes the T4 kill criterion: more than 5 times.
pub fn t4_passed<B: Arith>(speedup: B::T) -> (passed: bool)
    requires
        lawful::<B>(),
    ensures
        passed <==> s_exceeds::<B>(speedup, s_lit::<B>(5, 0)),
{
    B::exceeds(speedup, B::lit(5, 0))
}

/// The first pair of results at a context of 8K.
pub fn pair_at_8k<B: Arith>(
    pairs: &[(InferenceBenchResult<B>, InferenceBenchResult<B>)],
) -> (found: Option<usize>)
    ensures
        match found {
            Some(i) => i < pairs@.len() && pairs@[i as int].0.context_len == 8192 && forall|k: int|
                0 <= k < i ==> (#[trigger] pairs@[k]).0.context_len != 8192,
            None => forall|k: int|
                0 <= k < pairs@.len() ==> (#[trigger] pairs@[k]).0.context_len != 8192,
        },
{
    let mut i: usize = 0;
    while i < pairs.len()
        invariant
            i <= pairs@.len(),
            forall|k: int| 0 <= k < i ==> (#[trigger] pairs@[k]).0.context_len != 8192,
        decreases pairs@.len() - i,
    {
        if pairs[i].0.context_len == 8192 {
            return Some(i);
        }
        i += 1;
    }
    None
}

/// How FORGE did on the T2 kill criterion.
pub enum FlopVerdict {
    /// Less than a tenth of the FLOPs at comparable quality.
    Passed,
    /// Less than a tenth of the FLOPs, but not comparable quality.
    PartiallyFailed,
    /// No fewer FLOPs than that.
    Failed,
}

/// What the training FLOP audit compares.
pub struct FlopAudit<A: Arith, B: Arith> {
    pub flop_ratio: B::T,
    pub bpc_gap: A::T,
    pub transformer_flops_per_token: B::T,
    pub forge_flops_per_token: B::T,
    pub verdict: FlopVerdict,
}

/// T2 kill criterion: less than 1/10 of the FLOPs, with a gap of at most 0.5 BPC.
pub open spec fn flop_verdict<A: Arith, B: Arith>(flop_ratio: B::T, bpc_gap: A::T) -> FlopVerdict {
    if !s_exceeds::<B>(flop_ratio, s_lit::<B>(10, 0)) {
        FlopVerdict::Failed
    } else if s_exceeds::<A>(s_lit::<A>(5, 1), bpc_gap) || s_equals::<A>(
        s_lit::<A>(5, 1),
        bpc_gap,
    ) {
        FlopVerdict::Passed
    } else {
        FlopVerdict::PartiallyFailed
    }
}

/// Experiment E6: Training FLOP audit.
pub fn audit_flops<A: Arith, B: Arith>(
    forge_total_train_flops: B::T,
    transformer_total_train_flops: B::T,
    forge_val_bpc: A::T,
    transformer_val_bpc: A::T,
    training_tokens: usize,
) -> (audit: FlopAudit<A, B>)
    requires
        lawful::<A>(),
        lawful::<B>(),
    ensures
        audit.flop_ratio == speedup_of::<B>(transformer_total_train_flops, forge_total_train_flops),
        audit.bpc_gap == s_minus::<A>(forge_val_bpc, transformer_val_bpc),
        audit.transformer_flops_per_token == s_over::<B>(
            transformer_total_train_flops,
            s_count::<B>(training_tokens),
        ),
        audit.forge_flops_per_token == s_over::<B>(
            forge_total_train_flops,
            s_count::<B>(training_tokens),
        ),
        audit.verdict == flop_verdict::<A, B>(audit.flop_ratio, audit.bpc_gap),
{
    let flop_ratio = speedup::<B>(transformer_total_train_flops, forge_total_train_flops);
    let bpc_gap = A::minus(forge_val_bpc, transformer_val_bpc);
    let half = A::lit(5, 1);
    let verdict = if !B::exceeds(flop_ratio, B::lit(10, 0)) {
        FlopVerdict::Failed
    } else if A::exceeds(half, bpc_gap) || A::equals(half, bpc_gap) {
        FlopVerdict::Passed
    } else {
        FlopVerdict::PartiallyFailed
    };
    FlopAudit {
        flop_ratio,
        bpc_gap,
        transformer_flops_per_token: B::over(
            transformer_total_train_flops,
            B::count(training_tokens),
        ),
        forge_flops_per_token: B::over(forge_total_train_flops, B::count(training_tokens)),
        verdict,
    }
}

} // verus!
