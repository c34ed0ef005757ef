//! Dataset and batch generator for character/byte-level corpora.

use vstd::prelude::*;
use rand::rngs::StdRng;
use crate::arith::{Arith, lawful, s_count, s_times, s_whole};
use crate::rng::{draw_up_to, draws_up_to, is_seeded};

verus! {

/// Character/byte-level dataset supporting fast contiguous batch sampling.
#[derive(Debug, Clone)]
pub struct CharDataset {
    pub data: Vec<u8>,
    pub vocab_size: usize,
}

/// The `n` tokens of `data` from position `start` on.
pub open spec fn tokens_at(data: Seq<u8>, start: int, n: nat) -> Seq<usize> {
    Seq::new(n, |i: int| data[start + i] as usize)
}

/// Row `i` of a batch is a window of `data` that begins at some position in reach, with the
/// window one position later as its targets.
pub open spec fn is_batch_row(
    data: Seq<u8>,
    seq_len: nat,
    input: Seq<usize>,
    target: Seq<usize>,
) -> bool {
    exists|start: int|
        0 <= start <= data.len() - seq_len - 1 && input == #[trigger] tokens_at(
            data,
            start,
            seq_len,
        ) && target == tokens_at(data, start + 1, seq_len)
}

/// Targets are inputs shifted by one: within a row of a batch each target is the input that
/// follows at the next position.
pub proof fn targets_are_inputs_shifted_by_one(
    data: Seq<u8>,
    seq_len: nat,
    input: Seq<usize>,
    target: Seq<usize>,
)
    requires
        is_batch_row(data, seq_len, input, target),
    ensures
        input.len() == seq_len,
        target.len() == seq_len,
        forall|i: int| 0 <= i < seq_len - 1 ==> target[i] == #[trigger] input[i + 1],
{
}

/// The `n` bytes of `data` from `start` on, as tokens.
pub fn read_tokens(data: &[u8], start: usize, n: usize) -> (tokens: Vec<usize>)
    requires
        start + n <= data.len(),
    ensures
        tokens@ == tokens_at(data@, start as int, n as nat),
{
    let mut tokens: Vec<usize> = Vec::with_capacity(n);
    let mut i: usize = 0;
    while i < n
        invariant
            i <= n,
            start + n <= data.len(),
            tokens@ == tokens_at(data@, start as int, i as nat),
        decreases n - i,
    {
        tokens.push(data[start + i] as usize);
        i += 1;
        assert(tokens@ =~= tokens_at(data@, start as int, i as nat));
    }
    tokens
}

/// A generator draws a run of `n` tokens of `data`, from all the positions at which `n` tokens
/// fit.
pub open spec fn draws_run(
    before: StdRng,
    data: Seq<u8>,
    n: nat,
    tokens: Seq<usize>,
    after: StdRng,
) -> bool {
    exists|start: usize| #[trigger]
        draws_up_to(before, (data.len() - n) as usize, start, after) && start <= data.len() - n
            && tokens == tokens_at(data, start as int, n)
}

/// A run of `n` tokens of `data` that begins at a random position.
pub fn sample_tokens(data: &[u8], n: usize, rng: &mut StdRng) -> (tokens: Vec<usize>)
    requires
        n <= data@.len(),
    ensures
        draws_run(*old(rng), data@, n as nat, tokens@, *final(rng)),
{
    let start: usize = draw_up_to(rng, data.len() - n);
    read_tokens(data, start, n)
}

/// A generator draws windows of `data`, one after another, from all the positions at which a
/// window and the one behind it fit. The targets of a window are the window one position later.
pub open spec fn draws_windows(
    before: StdRng,
    data: Seq<u8>,
    seq_len: nat,
    xs: Seq<Vec<usize>>,
    ys: Seq<Vec<usize>>,
    after: StdRng,
) -> bool
    decreases xs.len(),
{
    if xs.len() == 0 {
        ys.len() == 0 && after == before
    } else {
        let max_start = data.len() - seq_len - 1;
        &&& ys.len() == xs.len()
        &&& exists|mid: StdRng, start: usize|
            {
                &&& draws_windows(
                    before,
                    data,
                    seq_len,
                    xs.drop_last(),
                    ys.drop_last(),
                    mid,
                )
                &&& #[trigger] draws_up_to(mid, max_start as usize, start, after)
                &&& start <= max_start
                &&& xs.last()@ == tokens_at(data, start as int, seq_len)
                &&& ys.last()@ == tokens_at(data, start + 1, seq_len)
            }
    }
}

/// The generator of a seed draws `n` windows of `data` with their targets.
pub open spec fn windows_from_seed(
    seed: u64,
    data: Seq<u8>,
    seq_len: nat,
    n: nat,
    xs: Seq<Vec<usize>>,
    ys: Seq<Vec<usize>>,
) -> bool {
    xs.len() == n && exists|first: StdRng, last: StdRng|
        is_seeded(seed, first) && #[trigger] draws_windows(first, data, seq_len, xs, ys, last)
}

/// Whatever a generator draws, every window and its targets lie in the data.
pub proof fn windows_lie_in_the_data(
    before: StdRng,
    data: Seq<u8>,
    seq_len: nat,
    xs: Seq<Vec<usize>>,
    ys: Seq<Vec<usize>>,
    after: StdRng,
)
    requires
        draws_windows(before, data, seq_len, xs, ys, after),
    ensures
        ys.len() == xs.len(),
        forall|i: int|
            0 <= i < xs.len() ==> is_batch_row(data, seq_len, #[trigger] xs[i]@, ys[i]@),
    decreases xs.len(),
{
    if xs.len() > 0 {
        let max_start = data.len() - seq_len - 1;
        let (mid, start) = choose|mid: StdRng, start: usize|
            {
                &&& draws_windows(
                    before,
                    data,
                    seq_len,
                    xs.drop_last(),
                    ys.drop_last(),
                    mid,
                )
                &&& #[trigger] draws_up_to(mid, max_start as usize, start, after)
                &&& start <= max_start
                &&& xs.last()@ == tokens_at(data, start as int, seq_len)
                &&& ys.last()@ == tokens_at(data, start + 1, seq_len)
            };
        windows_lie_in_the_data(before, data, seq_len, xs.drop_last(), ys.drop_last(), mid);
        assert forall|i: int| 0 <= i < xs.len() implies is_batch_row(
            data,
            seq_len,
            #[trigger] xs[i]@,
            ys[i]@,
        ) by {
            if i < xs.len() - 1 {
                assert(is_batch_row(data, seq_len, xs.drop_last()[i]@, ys.drop_last()[i]@));
            } else {
                assert(xs[i]@ == tokens_at(data, start as int, seq_len));
            }
        }
    }
}

/// Random windows of `data`, each with the window one position later as its targets.
pub fn sample_windows(data: &[u8], batch_size: usize, seq_len: usize, rng: &mut StdRng) -> (batch: (
    Vec<Vec<usize>>,
    Vec<Vec<usize>>,
))
    requires
        batch_size > 0 ==> data@.len() >= seq_len + 1,
    ensures
        batch.0@.len() == batch_size,
        draws_windows(
            *old(rng),
            data@,
            seq_len as nat,
            batch.0@,
            batch.1@,
            *final(rng),
        ),
{
    let ghost first = *rng;
    let max_start: usize = if data.len() > seq_len {
        data.len() - seq_len - 1
    } else {
        0
    };
    let mut inputs: Vec<Vec<usize>> = Vec::with_capacity(batch_size);
    let mut targets: Vec<Vec<usize>> = Vec::with_capacity(batch_size);
    let mut k: usize = 0;
    while k < batch_size
        invariant
            k <= batch_size,
            batch_size > 0 ==> max_start == data.len() - seq_len - 1,
            data.len() == data@.len(),
            inputs@.len() == k,
            targets@.len() == k,
            draws_windows(first, data@, seq_len as nat, inputs@, targets@, *rng),
        decreases batch_size - k,
    {
        let ghost (xs, ys, mid) = (inputs@, targets@, *rng);
        let start: usize = draw_up_to(rng, max_start);
        let x = read_tokens(data, start, seq_len);
        let y = read_tokens(data, start + 1, seq_len);
        inputs.push(x);
        targets.push(y);
        assert(inputs@.drop_last() =~= xs);
        assert(targets@.drop_last() =~= ys);
        assert(draws_up_to(mid, max_start, start, *rng));
        k += 1;
    }
    (inputs, targets)
}

impl CharDataset {
    /// A byte sequence (e.g. tiny-shakespeare or enwik8) under the full byte vocabulary.
    pub fn from_bytes(data: Vec<u8>) -> (set: Self)
        ensures
            set.data@ == data@,
            set.vocab_size == 256,
    {
        Self { data, vocab_size: 256 }
    }

    /// As `from_bytes`, with a maximum byte limit (e.g. first 10MB of enwik8 for fast training).
    pub fn from_bytes_limit(data: Vec<u8>, max_bytes: usize) -> (set: Self)
        ensures
            set.data@ == if data@.len() > max_bytes {
                data@.take(max_bytes as int)
            } else {
                data@
            },
            set.vocab_size == 256,
    {
        let mut data = data;
        if data.len() > max_bytes {
            data.truncate(max_bytes);
        }
        Self { data, vocab_size: 256 }
    }

    /// Where `split` cuts: at the whole part of the length times the ratio.
    pub open spec fn split_index<A: Arith>(&self, split_ratio: A::T) -> usize {
        s_whole::<A>(s_times::<A>(s_count::<A>(self.data@.len() as usize), split_ratio))
    }

    /// Split dataset into (train_dataset, val_dataset) by split_ratio (e.g. 0.9).
    pub fn split<A: Arith>(&self, split_ratio: A::T) -> (parts: (Self, Self))
        requires
            lawful::<A>(),
            self.split_index::<A>(split_ratio) <= self.data@.len(),
        ensures
            ({
                let cut = self.split_index::<A>(split_ratio) as int;
                &&& parts.0.data@ == self.data@.take(cut)
                &&& parts.1.data@ == self.data@.skip(cut)
            }),
            parts.0.vocab_size == self.vocab_size,
            parts.1.vocab_size == self.vocab_size,
            parts.0.data@ + parts.1.data@ == self.data@,
    {
        let split_idx: usize = A::whole(A::times(A::count(self.data.len()), split_ratio));
        let (train, val) = self.data.as_slice().split_at(split_idx);
        let train_data = vstd::slice::slice_to_vec(train);
        let val_data = vstd::slice::slice_to_vec(val);
        assert(train_data@ =~= self.data@.take(split_idx as int));
        assert(val_data@ =~= self.data@.skip(split_idx as int));
        (
            Self { data: train_data, vocab_size: self.vocab_size },
            Self { data: val_data, vocab_size: self.vocab_size },
        )
    }

    /// Total number of tokens/bytes in dataset.
    pub fn len(&self) -> (n: usize)
        ensures
            n == self.data@.len(),
    {
        self.data.len()
    }

    pub fn is_empty(&self) -> (empty: bool)
        ensures
            empty <==> self.data@.len() == 0,
    {
        self.data.len() == 0
    }

    /// Sample a random batch of sequences: (batch_size, seq_len)
    /// Returns (inputs, targets) where targets are inputs shifted by 1.
    pub fn sample_batch(&self, batch_size: usize, seq_len: usize, rng: &mut StdRng) -> (batch: (
        Vec<Vec<usize>>,
        Vec<Vec<usize>>,
    ))
        requires
            self.data@.len() > seq_len + 1,
        ensures
            batch.0@.len() == batch_size,
            draws_windows(
                *old(rng),
                self.data@,
                seq_len as nat,
                batch.0@,
                batch.1@,
                *final(rng),
            ),
    {
        sample_windows(self.data.as_slice(), batch_size, seq_len, rng)
    }
}

} // verus!
