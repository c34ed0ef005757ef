//! Evaluation of the FORGE model: losses over several sequences.

use vstd::prelude::*;
use rand::rngs::StdRng;
use crate::arith::{Arith, lawful, s_count, s_lit, s_over, s_plus, zero};
use crate::dataset::{draws_run, sample_tokens, tokens_at};
use crate::forge_model::{ForgeBlockValues, ForgeModel, ForgeModelValues, passed};
use crate::rng::{draws_up_to, is_seeded, seeded};

verus! {

/// The FLOPs of a token in the first `k` blocks.
pub open spec fn flops_sum<A: Arith>(blocks: Seq<ForgeBlockValues<A>>, k: nat) -> nat
    decreases k,
{
    if k == 0 {
        0
    } else {
        flops_sum::<A>(blocks, (k - 1) as nat) + blocks[k - 1].flops_per_token()
    }
}

/// The FLOPs that the first `k` blocks have counted and that were not read yet.
pub open spec fn pending_sum<A: Arith>(blocks: Seq<ForgeBlockValues<A>>, k: nat) -> int
    decreases k,
{
    if k == 0 {
        0
    } else {
        pending_sum::<A>(blocks, (k - 1) as nat) + blocks[k - 1].flops_forward
    }
}

/// Sums over blocks that count the same.
pub(crate) proof fn lemma_same_sums<A: Arith>(
    a: Seq<ForgeBlockValues<A>>,
    b: Seq<ForgeBlockValues<A>>,
    k: nat,
)
    requires
        k <= a.len(),
        k <= b.len(),
        forall|l: int|
            0 <= l < k ==> (#[trigger] a[l]).flops_per_token() == b[l].flops_per_token(),
    ensures
        flops_sum::<A>(a, k) == flops_sum::<A>(b, k),
    decreases k,
{
    if k > 0 {
        lemma_same_sums::<A>(a, b, (k - 1) as nat);
        assert(a[k - 1].flops_per_token() == b[k - 1].flops_per_token());
    }
}

/// The sums over more blocks are not smaller.
pub(crate) proof fn lemma_sums_grow<A: Arith>(a: Seq<ForgeBlockValues<A>>, k: nat, n: nat)
    requires
        k <= n <= a.len(),
        forall|l: int| 0 <= l < a.len() ==> (#[trigger] a[l]).flops_forward >= 0,
    ensures
        0 <= pending_sum::<A>(a, k) <= pending_sum::<A>(a, n),
        flops_sum::<A>(a, k) <= flops_sum::<A>(a, n),
    decreases n,
{
    if k < n {
        lemma_sums_grow::<A>(a, k, (n - 1) as nat);
        assert(a[n - 1].flops_forward >= 0);
    } else if k > 0 {
        lemma_sums_grow::<A>(a, (k - 1) as nat, (k - 1) as nat);
        assert(a[k - 1].flops_forward >= 0);
    }
}

/// Blocks that have nothing pending.
pub(crate) proof fn lemma_nothing_pending<A: Arith>(a: Seq<ForgeBlockValues<A>>, k: nat)
    requires
        k <= a.len(),
        forall|l: int| 0 <= l < k ==> (#[trigger] a[l]).flops_forward == 0,
    ensures
        pending_sum::<A>(a, k) == 0,
    decreases k,
{
    if k > 0 {
        lemma_nothing_pending::<A>(a, (k - 1) as nat);
        assert(a[k - 1].flops_forward == 0);
    }
}

impl<A: Arith> ForgeModelValues<A> {
    /// The FLOPs of a token.
    pub open spec fn flops_per_token(&self) -> nat {
        2 * self.d + flops_sum::<A>(self.blocks, self.blocks.len()) + 2 * self.vocab * self.d
    }

    /// There is room for `n` more tokens of evaluation.
    pub open spec fn can_evaluate(&self, n: int) -> bool {
        &&& self.has_room(n)
        &&& self.max_seq > 0
        &&& 2 * self.vocab <= usize::MAX
        &&& 2 * self.vocab * self.d <= usize::MAX
        &&& 2 * self.d <= usize::MAX
        &&& self.total_flops + pending_sum::<A>(self.blocks, self.blocks.len()) + n
            * self.flops_per_token() <= u64::MAX
    }

    /// The FLOPs that a passage reads.
    pub(crate) proof fn lemma_passage(&self, h: Seq<A::T>, n: int, k: nat)
        requires
            self.has_room(n),
            n >= 1,
            h.len() == self.d,
            k <= self.blocks.len(),
        ensures
            ({
                let p = passed::<A>(self.blocks, h, k);
                &&& p.flops == pending_sum::<A>(self.blocks, k) + flops_sum::<A>(self.blocks, k)
                &&& forall|l: int|
                    0 <= l < k ==> (#[trigger] p.blocks[l]).flops_per_token()
                        == self.blocks[l].flops_per_token()
            }),
        decreases k,
    {
        if k > 0 {
            self.lemma_passage(h, n, (k - 1) as nat);
            self.lemma_passed(h, n, (k - 1) as nat);
            let p = passed::<A>(self.blocks, h, (k - 1) as nat);
            assert(p.blocks[k - 1] == self.blocks[k - 1]);
            assert(self.blocks[k - 1].has_room(n));
            p.blocks[k - 1].lemma_next(p.h, n);
        }
    }

    /// The FLOPs after some tokens: those that were pending, and those of each token.
    pub(crate) proof fn lemma_total(&self, tokens: Seq<usize>, n: nat, room: int)
        requires
            self.has_room(room),
            1 <= n <= room,
            n <= tokens.len(),
            self.max_seq > 0,
            forall|t: int| 0 <= t < tokens.len() ==> #[trigger] tokens[t] < self.vocab,
        ensures
            ({
                let m = self.after(tokens, n);
                &&& m.total_flops == self.total_flops + pending_sum::<A>(
                    self.blocks,
                    self.blocks.len(),
                ) + n * self.flops_per_token()
                &&& m.flops_per_token() == self.flops_per_token()
                &&& pending_sum::<A>(m.blocks, m.blocks.len()) == 0
                &&& m.nothing_pending()
            }),
        decreases n,
    {
        let before = self.after(tokens, (n - 1) as nat);
        self.lemma_after(tokens, (n - 1) as nat, room);
        self.lemma_after(tokens, n, room);
        if n > 1 {
            self.lemma_total(tokens, (n - 1) as nat, room);
        }
        let tok = tokens[n - 1] as int;
        let h = before.embed(tok, n - 1);
        let k = before.blocks.len();
        before.lemma_embed_len(tok, n - 1);
        before.lemma_passed(h, room - n + 1, k);
        before.lemma_passage(h, room - n + 1, k);
        let m = self.after(tokens, n);
        lemma_same_sums::<A>(m.blocks, before.blocks, k);
        lemma_nothing_pending::<A>(m.blocks, k);
        let f = self.flops_per_token();
        assert(n * f == (n - 1) * f + f) by (nonlinear_arith);
    }

    /// With room for evaluation, a sequence is accepted, and leaves as much room less.
    pub proof fn lemma_evaluate(&self, tokens: Seq<usize>, room: int)
        requires
            self.can_evaluate(room),
            2 <= tokens.len() <= room + 1,
            forall|t: int| 0 <= t < tokens.len() ==> #[trigger] tokens[t] < self.vocab,
        ensures
            self.accepts(tokens),
            self.after(tokens, (tokens.len() - 1) as nat).can_evaluate(room - (tokens.len() - 1)),
            self.after(tokens, (tokens.len() - 1) as nat).vocab == self.vocab,
            self.after(tokens, (tokens.len() - 1) as nat).train_flops() == self.train_flops(),
            self.after(tokens, (tokens.len() - 1) as nat).nothing_pending(),
    {
        let n = (tokens.len() - 1) as nat;
        self.lemma_after(tokens, n, room);
        self.lemma_total(tokens, n, room);
        let f = self.flops_per_token();
        assert(0 <= 2 * self.vocab * self.d) by (nonlinear_arith);
        assert(n * f + (room - n) * f == room * f) by (nonlinear_arith);
        assert(n * f <= room * f) by (nonlinear_arith)
            requires
                0 <= n <= room,
                0 <= f,
        ;
        assert forall|l: int| 0 <= l < self.blocks.len() implies (
        #[trigger] self.blocks[l]).has_room(n as int) by {
            assert(self.blocks[l].has_room(room));
        }
    }
}

/// The model, the losses and the number of tokens after some sequences.
pub struct Evaluated<A: Arith> {
    pub model: ForgeModelValues<A>,
    pub loss: A::T,
    pub tokens: int,
}

/// The first `k` sequences run through a model one after the other.
pub open spec fn evaluated<A: Arith>(
    m: ForgeModelValues<A>,
    seqs: Seq<Vec<usize>>,
    k: nat,
) -> Evaluated<A>
    decreases k,
{
    if k == 0 {
        Evaluated { model: m, loss: zero::<A>(), tokens: 0 }
    } else {
        let e = evaluated::<A>(m, seqs, (k - 1) as nat);
        let tokens = seqs[k - 1]@;
        let n = if tokens.len() < 2 {
            0
        } else {
            (tokens.len() - 1) as nat
        };
        Evaluated {
            model: e.model.after(tokens, n),
            loss: s_plus::<A>(e.loss, e.model.loss(tokens, n)),
            tokens: e.tokens + n,
        }
    }
}

/// The tokens of the first `k` sequences that are followed by another.
pub open spec fn tokens_in(seqs: Seq<Vec<usize>>, k: nat) -> int
    decreases k,
{
    if k == 0 {
        0
    } else {
        tokens_in(seqs, (k - 1) as nat) + (if seqs[k - 1]@.len() < 2 {
            0
        } else {
            seqs[k - 1]@.len() - 1
        })
    }
}

/// More sequences have more tokens.
proof fn lemma_tokens_grow(seqs: Seq<Vec<usize>>, k: nat, n: nat)
    requires
        k <= n,
    ensures
        0 <= tokens_in(seqs, k) <= tokens_in(seqs, n),
    decreases n,
{
    if k < n {
        lemma_tokens_grow(seqs, k, (n - 1) as nat);
    } else if k > 0 {
        lemma_tokens_grow(seqs, (k - 1) as nat, (k - 1) as nat);
    }
}

/// The losses of some sequences, and the number of tokens that they are of.
pub fn evaluate_forge<A: Arith>(model: &mut ForgeModel<A>, seqs: &[Vec<usize>]) -> (r: (
    A::T,
    usize,
))
    requires
        lawful::<A>(),
        old(model)@.can_evaluate(tokens_in(seqs@, seqs@.len())),
        tokens_in(seqs@, seqs@.len()) <= usize::MAX,
        forall|i: int, t: int|
            0 <= i < seqs@.len() && 0 <= t < seqs@[i]@.len() ==> #[trigger] seqs@[i]@[t] < old(
                model,
            )@.vocab,
    ensures
        ({
            let e = evaluated::<A>(old(model)@, seqs@, seqs@.len());
            &&& r.0 == e.loss
            &&& r.1 == e.tokens
            &&& final(model)@ == e.model
        }),
        final(model)@.train_flops() == old(model)@.train_flops(),
        old(model)@.nothing_pending() ==> final(model)@.nothing_pending(),
{
    let ghost m0 = model@;
    let ghost all = tokens_in(seqs@, seqs@.len());
    let mut total_loss = A::lit(0, 0);
    let mut total_toks: usize = 0;
    let mut k: usize = 0;
    while k < seqs.len()
        invariant
            lawful::<A>(),
            k <= seqs@.len(),
            all == tokens_in(seqs@, seqs@.len()),
            all <= usize::MAX,
            model@ == evaluated::<A>(m0, seqs@, k as nat).model,
            total_loss == evaluated::<A>(m0, seqs@, k as nat).loss,
            total_toks == evaluated::<A>(m0, seqs@, k as nat).tokens,
            total_toks == tokens_in(seqs@, k as nat),
            model@.vocab == m0.vocab,
            model@.train_flops() == m0.train_flops(),
            m0.nothing_pending() ==> model@.nothing_pending(),
            model@.can_evaluate(all - tokens_in(seqs@, k as nat)),
            forall|i: int, t: int|
                0 <= i < seqs@.len() && 0 <= t < seqs@[i]@.len() ==> #[trigger] seqs@[i]@[t]
                    < m0.vocab,
        decreases seqs@.len() - k,
    {
        let tokens = seqs[k].as_slice();
        proof {
            lemma_tokens_grow(seqs@, (k + 1) as nat, seqs@.len());
            if tokens@.len() >= 2 {
                assert forall|t: int| 0 <= t < tokens@.len() implies #[trigger] tokens@[t]
                    < m0.vocab by {
                    assert(seqs@[k as int]@[t] < m0.vocab);
                }
                model@.lemma_evaluate(tokens@, all - tokens_in(seqs@, k as nat));
            }
        }
        let (loss, cnt) = model.forward_sequence_loss(tokens);
        total_loss = A::plus(total_loss, loss);
        total_toks = total_toks + cnt;
        k += 1;
    }
    (total_loss, total_toks)
}

/// The mean of a loss over some tokens, at least one, and the same in bits per character.
pub open spec fn mean_over<A: Arith>(loss: A::T, tokens: int) -> (A::T, A::T) {
    let n = (if tokens > 1 {
        tokens
    } else {
        1
    }) as usize;
    let mean = s_over::<A>(loss, s_count::<A>(n));
    (mean, s_over::<A>(mean, s_lit::<A>(693147180559945309, 18)))
}

/// The mean of a loss over some tokens, at least one, and the same in bits per character.
pub fn mean_loss_and_bpc<A: Arith>(loss: A::T, tokens: usize) -> (r: (A::T, A::T))
    requires
        lawful::<A>(),
    ensures
        r == mean_over::<A>(loss, tokens as int),
{
    let n: usize = if tokens > 1 {
        tokens
    } else {
        1
    };
    let mean = A::over(loss, A::count(n));
    (mean, A::over(mean, A::lit(693147180559945309, 18)))
}

/// A run of tokens of the data.
pub open spec fn is_run(data: Seq<u8>, n: nat, tokens: Seq<usize>) -> bool {
    exists|start: int|
        0 <= start <= data.len() - n && tokens == #[trigger] tokens_at(data, start, n)
}

/// A generator draws runs of `n` tokens of the data, one after another.
pub open spec fn draws_runs(
    before: StdRng,
    data: Seq<u8>,
    n: nat,
    runs: Seq<Vec<usize>>,
    after: StdRng,
) -> bool
    decreases runs.len(),
{
    if runs.len() == 0 {
        after == before
    } else {
        exists|mid: StdRng|
            draws_runs(before, data, n, runs.drop_last(), mid) && #[trigger] draws_run(
                mid,
                data,
                n,
                runs.last()@,
                after,
            )
    }
}

/// The generator of a seed draws `count` runs of `n` tokens of the data.
pub open spec fn runs_from_seed(
    seed: u64,
    data: Seq<u8>,
    n: nat,
    count: nat,
    runs: Seq<Vec<usize>>,
) -> bool {
    runs.len() == count && exists|first: StdRng, last: StdRng|
        is_seeded(seed, first) && #[trigger] draws_runs(first, data, n, runs, last)
}

/// Whatever a generator draws, every run lies in the data.
pub proof fn runs_lie_in_the_data(
    before: StdRng,
    data: Seq<u8>,
    n: nat,
    runs: Seq<Vec<usize>>,
    after: StdRng,
)
    requires
        draws_runs(before, data, n, runs, after),
    ensures
        forall|i: int| 0 <= i < runs.len() ==> is_run(data, n, #[trigger] runs[i]@),
    decreases runs.len(),
{
    if runs.len() > 0 {
        let mid = choose|mid: StdRng|
            draws_runs(before, data, n, runs.drop_last(), mid) && #[trigger] draws_run(
                mid,
                data,
                n,
                runs.last()@,
                after,
            );
        runs_lie_in_the_data(before, data, n, runs.drop_last(), mid);
        assert forall|i: int| 0 <= i < runs.len() implies is_run(data, n, #[trigger] runs[i]@) by {
            if i < runs.len() - 1 {
                assert(is_run(data, n, runs.drop_last()[i]@));
            } else {
                let start = choose|start: usize| #[trigger]
                    draws_up_to(mid, (data.len() - n) as usize, start, after) && start
                        <= data.len() - n && runs.last()@ == tokens_at(data, start as int, n);
                assert(runs[i]@ == tokens_at(data, start as int, n));
            }
        }
    }
}

/// Random runs of `n` tokens of the data.
pub fn draw_runs(data: &[u8], count: usize, n: usize, rng: &mut StdRng) -> (runs: Vec<Vec<usize>>)
    requires
        count > 0 ==> n <= data@.len(),
    ensures
        runs@.len() == count,
        draws_runs(*old(rng), data@, n as nat, runs@, *final(rng)),
{
    let ghost first = *rng;
    let mut runs: Vec<Vec<usize>> = Vec::with_capacity(count);
    let mut k: usize = 0;
    while k < count
        invariant
            k <= count,
            count > 0 ==> n <= data@.len(),
            runs@.len() == k,
            draws_runs(first, data@, n as nat, runs@, *rng),
        decreases count - k,
    {
        let ghost (before, mid) = (runs@, *rng);
        let run = sample_tokens(data, n, rng);
        runs.push(run);
        assert(runs@.drop_last() =~= before);
        assert(draws_run(mid, data@, n as nat, runs@.last()@, *rng));
        k += 1;
    }
    runs
}

/// Random runs of `n` tokens of the data, from the generator of a seed.
pub fn sample_runs(data: &[u8], count: usize, n: usize, seed: u64) -> (runs: Vec<Vec<usize>>)
    requires
        count > 0 ==> n <= data@.len(),
    ensures
        runs_from_seed(seed, data@, n as nat, count as nat, runs@),
        forall|i: int| 0 <= i < count ==> is_run(data@, n as nat, #[trigger] runs@[i]@),
{
    let mut rng = seeded(seed);
    let ghost first = rng;
    let runs = draw_runs(data, count, n, &mut rng);
    proof {
        runs_lie_in_the_data(first, data@, n as nat, runs@, rng);
    }
    runs
}

/// Runs of the same length have the same number of tokens.
proof fn lemma_tokens_of_runs(seqs: Seq<Vec<usize>>, n: int, k: nat)
    requires
        k <= seqs.len(),
        n >= 0,
        forall|i: int| 0 <= i < seqs.len() ==> (#[trigger] seqs[i])@.len() == n + 1,
    ensures
        tokens_in(seqs, k) == k * n,
    decreases k,
{
    if k > 0 {
        lemma_tokens_of_runs(seqs, n, (k - 1) as nat);
        assert(seqs[k - 1]@.len() == n + 1);
        assert(k * n == (k - 1) * n + n) by (nonlinear_arith);
    } else {
        assert(k * n == 0) by (nonlinear_arith)
            requires
                k == 0,
        ;
    }
}

/// What an evaluation on the runs that the generator of a seed draws comes to: the mean of their
/// losses, one after the other.
pub open spec fn evaluates_to<A: Arith>(
    before: ForgeModelValues<A>,
    data: Seq<u8>,
    n_batches: nat,
    seq_len: nat,
    seed: u64,
    after: ForgeModelValues<A>,
    r: (A::T, A::T),
) -> bool {
    exists|runs: Seq<Vec<usize>>|
        runs_from_seed(seed, data, seq_len + 1, n_batches, runs) && ({
            let e = #[trigger] evaluated::<A>(before, runs, runs.len());
            r == mean_over::<A>(e.loss, e.tokens) && after == e.model
        })
}

/// Mean loss and BPC on random windows.
pub fn evaluate_on_runs<A: Arith>(
    model: &mut ForgeModel<A>,
    data: &[u8],
    n_batches: usize,
    seq_len: usize,
    seed: u64,
) -> (r: (A::T, A::T))
    requires
        lawful::<A>(),
        old(model)@.can_evaluate(n_batches * seq_len),
        n_batches > 0 ==> data@.len() >= seq_len + 1,
        seq_len < usize::MAX,
        n_batches * seq_len <= usize::MAX,
        n_batches > 0 ==> forall|i: int|
            0 <= i < data@.len() ==> #[trigger] data@[i] < old(model)@.vocab,
    ensures
        evaluates_to::<A>(
            old(model)@,
            data@,
            n_batches as nat,
            seq_len as nat,
            seed,
            final(model)@,
            r,
        ),
        final(model)@.train_flops() == old(model)@.train_flops(),
        old(model)@.nothing_pending() ==> final(model)@.nothing_pending(),
{
    let ghost m0 = model@;
    assert(data.len() == data@.len());
    let runs = sample_runs(data, n_batches, seq_len + 1, seed);
    proof {
        assert forall|i: int| 0 <= i < runs@.len() implies (#[trigger] runs@[i])@.len() == seq_len
            + 1 by {
            assert(is_run(data@, (seq_len + 1) as nat, runs@[i]@));
        }
        assert forall|i: int, t: int|
            0 <= i < runs@.len() && 0 <= t < runs@[i]@.len() implies #[trigger] runs@[i]@[t]
            < m0.vocab by {
            assert(is_run(data@, (seq_len + 1) as nat, runs@[i]@));
        }
        lemma_tokens_of_runs(runs@, seq_len as int, n_batches as nat);
    }
    let (total_loss, total_toks) = evaluate_forge(model, runs.as_slice());
    assert(model@ == evaluated::<A>(m0, runs@, runs@.len()).model);
    mean_loss_and_bpc::<A>(total_loss, total_toks)
}

/// Evaluation: mean loss and BPC on random held-out windows, from a fresh FLOP counter.
pub fn evaluate_forge_bpc<A: Arith>(
    model: &mut ForgeModel<A>,
    val_data: &[u8],
    n_batches: usize,
    seq_len: usize,
    seed: u64,
) -> (r: (A::T, A::T))
    requires
        lawful::<A>(),
        old(model)@.with_no_flops().can_evaluate(n_batches * seq_len),
        n_batches > 0 ==> val_data@.len() >= seq_len + 1,
        seq_len < usize::MAX,
        n_batches * seq_len <= usize::MAX,
        n_batches > 0 ==> forall|i: int|
            0 <= i < val_data@.len() ==> #[trigger] val_data@[i] < old(model)@.vocab,
    ensures
        evaluates_to::<A>(
            old(model)@.with_no_flops(),
            val_data@,
            n_batches as nat,
            seq_len as nat,
            seed,
            final(model)@,
            r,
        ),
        final(model)@.train_flops() == old(model)@.train_flops(),
        old(model)@.nothing_pending() ==> final(model)@.nothing_pending(),
{
    model.reset_flop_counter();
    evaluate_on_runs(model, val_data, n_batches, seq_len, seed)
}

} // verus!
