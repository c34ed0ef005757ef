//! Experiment E2: T1 Recall - Needle-in-haystack recall test for MRM.
//! Inserts a unique key/value pair at a random position in a random-token sequence.
//! Then queries the value via the same key at the end of the sequence.
//! Compares: Transformer KV cache vs MRM vs MRM+fast-weights.
//! Target: >90% recall @ 4K.

use vstd::prelude::*;
use rand::rngs::StdRng;
use crate::arith::{
    Arith, lawful, one, s_count, s_exceeds, s_larger, s_lit, s_minus, s_negate, s_over, s_plus,
    s_sqrt, s_times, s_whole, zero,
};
use crate::hebbian::{add_up_squares, sum_of_squares};
use crate::layer::zero_vec;
use crate::matvec::matvec_of;
use crate::mrm::{MrmStats, MrmValues, MultiResMemory, memory_keeps_its_size, recalled};
use crate::rng::{draw_all, draws_all, is_seeded};
use crate::softmax::{softmax, softmax_of};
use crate::stats::{index_at_share, is_sorting, share_index, sorted_ascending};
use crate::tensor::{
    add_scaled, copied, dot, dot_of, products_added, vec_add_scaled, vec_zero, zeros,
};
use crate::text::{has_part, part_at};
use crate::transformer::{mix, weighted_sum};
use crate::vectors::{all_of_len, mul_vec, rows_in};

verus! {

/// The length of a vector, which counts as a millionth where it is less.
pub open spec fn length_of<A: Arith>(v: Seq<A::T>) -> A::T {
    s_larger::<A>(s_sqrt::<A>(sum_of_squares::<A>(v, v.len())), s_lit::<A>(1, 6))
}

/// A vector divided by its length.
pub open spec fn unit_of<A: Arith>(v: Seq<A::T>) -> Seq<A::T> {
    Seq::new(v.len(), |i: int| s_over::<A>(v[i], length_of::<A>(v)))
}

/// The cosine of the angle between two vectors.
pub open spec fn cosine_of<A: Arith>(a: Seq<A::T>, b: Seq<A::T>) -> A::T {
    s_over::<A>(
        products_added::<A>(zero::<A>(), a, b, 0, a.len() as int),
        s_times::<A>(length_of::<A>(a), length_of::<A>(b)),
    )
}

/// The length of a vector.
fn length<A: Arith>(v: &[A::T]) -> (r: A::T)
    requires
        lawful::<A>(),
    ensures
        r == length_of::<A>(v@),
{
    A::larger(A::sqrt(add_up_squares::<A>(v)), A::lit(1, 6))
}

/// A vector divided by its length.
pub fn unit_vector<A: Arith>(v: &[A::T]) -> (unit: Vec<A::T>)
    requires
        lawful::<A>(),
    ensures
        unit@ == unit_of::<A>(v@),
{
    let norm = length::<A>(v);
    let mut unit: Vec<A::T> = Vec::with_capacity(v.len());
    let mut i: usize = 0;
    while i < v.len()
        invariant
            lawful::<A>(),
            i <= v@.len(),
            norm == length_of::<A>(v@),
            unit@ == unit_of::<A>(v@).take(i as int),
        decreases v@.len() - i,
    {
        unit.push(A::over(v[i], norm));
        i += 1;
        assert(unit@ =~= unit_of::<A>(v@).take(i as int));
    }
    assert(unit_of::<A>(v@).take(i as int) =~= unit_of::<A>(v@));
    unit
}

/// The cosine of the angle between two vectors.
pub fn cosine<A: Arith>(a: &[A::T], b: &[A::T]) -> (r: A::T)
    requires
        lawful::<A>(),
        a@.len() == b@.len(),
    ensures
        r == cosine_of::<A>(a@, b@),
{
    let mut sum = A::lit(0, 0);
    let mut i: usize = 0;
    while i < a.len()
        invariant
            lawful::<A>(),
            i <= a@.len(),
            a@.len() == b@.len(),
            sum == products_added::<A>(zero::<A>(), a@, b@, 0, i as int),
        decreases a@.len() - i,
    {
        sum = A::plus(sum, A::times(a[i], b[i]));
        i += 1;
    }
    A::over(sum, A::times(length::<A>(a), length::<A>(b)))
}

/// The part of a number behind the point.
pub open spec fn fraction_of<A: Arith>(x: A::T) -> A::T {
    s_minus::<A>(x, s_count::<A>(s_whole::<A>(x)))
}

/// Entry `i` of a signal: the fraction of `slope * i + offset`, stretched from -1 to 1.
pub open spec fn signal_at<A: Arith>(slope: A::T, offset: A::T, i: usize) -> A::T {
    let x = s_plus::<A>(s_times::<A>(s_count::<A>(i), slope), offset);
    s_minus::<A>(s_times::<A>(fraction_of::<A>(x), s_lit::<A>(2, 0)), one::<A>())
}

/// A signal over `d` entries.
pub open spec fn signal_of<A: Arith>(slope: A::T, offset: A::T, d: nat) -> Seq<A::T> {
    Seq::new(d, |i: int| signal_at::<A>(slope, offset, i as usize))
}

/// A fixed unique signal of length one.
pub fn signal<A: Arith>(slope: A::T, offset: A::T, d: usize) -> (v: Vec<A::T>)
    requires
        lawful::<A>(),
    ensures
        v@ == unit_of::<A>(signal_of::<A>(slope, offset, d as nat)),
{
    let mut v: Vec<A::T> = Vec::with_capacity(d);
    let ghost want = signal_of::<A>(slope, offset, d as nat);
    let mut i: usize = 0;
    while i < d
        invariant
            lawful::<A>(),
            i <= d,
            want == signal_of::<A>(slope, offset, d as nat),
            v@ == want.take(i as int),
        decreases d - i,
    {
        let x = A::plus(A::times(A::count(i), slope), offset);
        let fraction = A::minus(x, A::count(A::whole(x)));
        v.push(A::minus(A::times(fraction, A::lit(2, 0)), A::lit(1, 0)));
        i += 1;
        assert(v@ =~= want.take(i as int));
    }
    assert(want.take(i as int) =~= want);
    unit_vector::<A>(v.as_slice())
}

/// The key that is hidden in the haystack.
pub fn needle_key<A: Arith>(d: usize) -> (v: Vec<A::T>)
    requires
        lawful::<A>(),
    ensures
        v@ == unit_of::<A>(signal_of::<A>(s_lit::<A>(7, 1), s_lit::<A>(3, 1), d as nat)),
{
    signal::<A>(A::lit(7, 1), A::lit(3, 1), d)
}

/// The value that belongs to the hidden key.
pub fn needle_value<A: Arith>(d: usize) -> (v: Vec<A::T>)
    requires
        lawful::<A>(),
    ensures
        v@ == unit_of::<A>(signal_of::<A>(s_lit::<A>(13, 2), s_lit::<A>(5, 1), d as nat)),
{
    signal::<A>(A::lit(13, 2), A::lit(5, 1), d)
}

/// A generator draws the `d` numbers of a vector from -1 to 1; the vector is divided by its
/// length.
pub open spec fn draws_unit<A: Arith>(
    before: StdRng,
    d: nat,
    h: Seq<A::T>,
    after: StdRng,
) -> bool {
    exists|raw: Seq<A::T>|
        raw.len() == d && #[trigger] draws_all::<A>(
            before,
            s_negate::<A>(one::<A>()),
            one::<A>(),
            raw,
            after,
        ) && h == unit_of::<A>(raw)
}

/// A vector drawn from -1 to 1 and divided by its length.
pub fn random_unit<A: Arith>(rng: &mut StdRng, d: usize) -> (h: Vec<A::T>)
    requires
        lawful::<A>(),
    ensures
        draws_unit::<A>(*old(rng), d as nat, h@, *final(rng)),
        h@.len() == d,
{
    let raw = draw_all::<A>(rng, A::negate(A::lit(1, 0)), A::lit(1, 0), d);
    let h = unit_vector::<A>(raw.as_slice());
    assert(draws_all::<A>(*old(rng), s_negate::<A>(one::<A>()), one::<A>(), raw@, *rng));
    h
}

/// A generator draws a stream of vectors of length one, one after another.
pub open spec fn draws_stream<A: Arith>(
    before: StdRng,
    d: nat,
    stream: Seq<Seq<A::T>>,
    after: StdRng,
) -> bool
    decreases stream.len(),
{
    if stream.len() == 0 {
        after == before
    } else {
        exists|mid: StdRng|
            draws_stream::<A>(before, d, stream.drop_last(), mid) && #[trigger] draws_unit::<A>(
                mid,
                d,
                stream.last(),
                after,
            )
    }
}

/// The generator of a seed draws a stream of `n` vectors of length one.
pub open spec fn stream_from_seed<A: Arith>(
    seed: u64,
    d: nat,
    n: nat,
    stream: Seq<Seq<A::T>>,
) -> bool {
    stream.len() == n && exists|first: StdRng, last: StdRng|
        is_seeded(seed, first) && #[trigger] draws_stream::<A>(first, d, stream, last)
}

/// A stream of random vectors of length one.
pub fn random_stream<A: Arith>(rng: &mut StdRng, d: usize, n: usize) -> (stream: Vec<Vec<A::T>>)
    requires
        lawful::<A>(),
    ensures
        stream@.len() == n,
        draws_stream::<A>(*old(rng), d as nat, rows_in(stream@), *final(rng)),
        all_of_len(rows_in(stream@), d as nat),
{
    let ghost first = *rng;
    let mut stream: Vec<Vec<A::T>> = Vec::with_capacity(n);
    let mut t: usize = 0;
    while t < n
        invariant
            lawful::<A>(),
            t <= n,
            stream@.len() == t,
            draws_stream::<A>(first, d as nat, rows_in(stream@), *rng),
            forall|k: int| 0 <= k < t ==> (#[trigger] stream@[k])@.len() == d,
        decreases n - t,
    {
        let ghost (before, mid) = (rows_in(stream@), *rng);
        let h = random_unit::<A>(rng, d);
        stream.push(h);
        assert(rows_in(stream@).drop_last() =~= before);
        assert(draws_unit::<A>(mid, d as nat, rows_in(stream@).last(), *rng));
        t += 1;
    }
    stream
}

impl<A: Arith> MrmValues<A> {
    /// The memory with nothing written, counted or adapted.
    pub open spec fn emptied(&self) -> MrmValues<A> {
        MrmValues {
            fine_keys: zeros::<A>(self.fine_keys.len()),
            fine_vals: zeros::<A>(self.fine_vals.len()),
            coarse_keys: zeros::<A>(self.coarse_keys.len()),
            coarse_vals: zeros::<A>(self.coarse_vals.len()),
            write_ptr: 0,
            mean_h: zeros::<A>(self.mean_h.len()),
            fw_u: zeros::<A>(self.fw_u.len()),
            fw_v: zeros::<A>(self.fw_v.len()),
            fw_active: false,
            total_tokens: 0,
            total_writes: 0,
            gate_records: Seq::empty(),
            recall_results: Seq::empty(),
            ..*self
        }
    }

    /// The memory after a key and a value were written past the surprise gate.
    pub open spec fn forced(&self, key: Seq<A::T>, val: Seq<A::T>) -> MrmValues<A> {
        MrmValues {
            total_tokens: self.total_tokens + 1,
            total_writes: self.total_writes + 1,
            ..self.fine_written(self.key_of(key), self.value_of(val))
        }
    }

    /// The memory after the first `n` vectors of a stream, with a key and a value written in
    /// place of vector `insert_pos`.
    pub open spec fn streamed(
        &self,
        stream: Seq<Seq<A::T>>,
        insert_pos: int,
        key: Seq<A::T>,
        val: Seq<A::T>,
        n: nat,
    ) -> MrmValues<A>
        decreases n,
    {
        if n == 0 {
            *self
        } else {
            let before = self.streamed(stream, insert_pos, key, val, (n - 1) as nat);
            if n - 1 == insert_pos {
                before.forced(key, val)
            } else {
                before.next(stream[n - 1], false)
            }
        }
    }

    /// The memory with fast weights of an example, if they are asked for.
    pub open spec fn adapted(&self, key: Seq<A::T>, val: Seq<A::T>, wanted: bool) -> MrmValues<A> {
        if wanted {
            MrmValues {
                fw_u: matvec_of::<A>(self.w_o, self.d, val),
                fw_v: key,
                fw_active: true,
                ..*self
            }
        } else {
            *self
        }
    }

    /// How close the recall for a key comes to what its value should give.
    pub open spec fn recall_cosine(&self, key: Seq<A::T>, val: Seq<A::T>) -> A::T {
        let best = recalled::<A>(self.query_of(key), self.fine_keys, self.fine_vals, self.k_fine);
        cosine_of::<A>(
            add_scaled::<A>(matvec_of::<A>(self.w_o, self.d, best.0), key, one::<A>()),
            add_scaled::<A>(matvec_of::<A>(self.w_o, self.d, val), key, one::<A>()),
        )
    }
}

/// Whether a recall counts as correct: its cosine exceeds 0.7.
pub open spec fn is_recalled<A: Arith>(cos: A::T) -> bool {
    s_exceeds::<A>(cos, s_lit::<A>(7, 1))
}

/// Empty a memory.
pub fn empty_memory<A: Arith>(mrm: &mut MultiResMemory<A>)
    requires
        lawful::<A>(),
        old(mrm).wf(),
    ensures
        final(mrm)@ == old(mrm)@.emptied(),
        final(mrm).wf(),
{
    vec_zero::<A>(mrm.fine_keys.as_mut_slice());
    vec_zero::<A>(mrm.fine_vals.as_mut_slice());
    vec_zero::<A>(mrm.coarse_keys.as_mut_slice());
    vec_zero::<A>(mrm.coarse_vals.as_mut_slice());
    mrm.write_ptr = 0;
    vec_zero::<A>(mrm.mean_h.as_mut_slice());
    mrm.reset_fast_weights();
    mrm.stats = MrmStats::default();
    assert(mrm@ =~= old(mrm)@.emptied());
}

/// A memory is fit for a recall trial: there are slots of both kinds to write to.
pub open spec fn fit_for_recall<A: Arith>(m: MrmValues<A>) -> bool {
    &&& m.wf()
    &&& m.k_fine > 0
    &&& m.k_coarse > 0 || m.d == 0
    &&& m.k_fine + m.k_coarse <= usize::MAX
}

/// The recall of a needle from a given stream: whether it is correct, and its cosine.
pub fn recall_from_stream<A: Arith>(
    mrm: &mut MultiResMemory<A>,
    stream: &Vec<Vec<A::T>>,
    insert_pos: usize,
    key_signal: &[A::T],
    val_signal: &[A::T],
    use_fast_weights: bool,
) -> (r: (bool, A::T))
    requires
        lawful::<A>(),
        fit_for_recall(old(mrm)@),
        all_of_len(rows_in(stream@), old(mrm).d as nat),
        key_signal@.len() == old(mrm).d,
        val_signal@.len() == old(mrm).d,
    ensures
        final(mrm)@ == old(mrm)@.emptied().streamed(
            rows_in(stream@),
            insert_pos as int,
            key_signal@,
            val_signal@,
            stream@.len(),
        ).adapted(key_signal@, val_signal@, use_fast_weights),
        r.1 == final(mrm)@.recall_cosine(key_signal@, val_signal@),
        r.0 == is_recalled::<A>(r.1),
        fit_for_recall(final(mrm)@),
        final(mrm).d == old(mrm).d,
        final(mrm).k_fine == old(mrm).k_fine,
        final(mrm).k_coarse == old(mrm).k_coarse,
{
    let d: usize = mrm.d;
    let ghost hs = rows_in(stream@);
    empty_memory(mrm);
    let ghost m0 = mrm@;
    let n: usize = stream.len();
    let mut out = zero_vec::<A>(d);
    // Stream random tokens through MRM; force-write key/val at insert_pos
    let mut t: usize = 0;
    while t < n
        invariant
            lawful::<A>(),
            t <= n,
            n == stream@.len(),
            hs == rows_in(stream@),
            d == mrm.d,
            all_of_len(hs, d as nat),
            key_signal@.len() == d,
            val_signal@.len() == d,
            out@.len() == d,
            fit_for_recall(mrm@),
            mrm@.total_tokens == t,
            0 <= mrm@.total_writes <= t,
            mrm@.k_fine == m0.k_fine,
            mrm@.k_coarse == m0.k_coarse,
            mrm@ == m0.streamed(hs, insert_pos as int, key_signal@, val_signal@, t as nat),
        decreases n - t,
    {
        assert(hs[t as int].len() == d);
        let ghost m = mrm@;
        if t == insert_pos {
            mrm.force_write(key_signal, val_signal);
        } else {
            proof {
                memory_keeps_its_size::<A>(m, hs[t as int], false);
            }
            mrm.forward(stream[t].as_slice(), out.as_mut_slice(), false);
        }
        t += 1;
    }
    // Optional fast-weight test-time update
    if use_fast_weights {
        mrm.fast_weight_update(key_signal, val_signal);
    }
    // Query
    let (recalled_out, _) = mrm.recall(key_signal);
    // Map val_signal through W_o to get expected output
    let mut expected_out = mul_vec::<A>(mrm.w_o.as_slice(), d, val_signal);
    vec_add_scaled::<A>(expected_out.as_mut_slice(), key_signal, A::lit(1, 0));  // residual
    let cos_sim = cosine::<A>(recalled_out.as_slice(), expected_out.as_slice());
    (A::exceeds(cos_sim, A::lit(7, 1)), cos_sim)
}

/// Run a single needle-in-haystack recall trial on a stream of random vectors.
/// Returns (correct, cosine_sim, memory_bytes).
pub fn recall_trial_mrm<A: Arith>(
    mrm: &mut MultiResMemory<A>,
    context_len: usize,
    insert_pos: usize,
    key_signal: &[A::T],
    val_signal: &[A::T],
    rng: &mut StdRng,
    use_fast_weights: bool,
) -> (r: (bool, A::T, usize))
    requires
        lawful::<A>(),
        fit_for_recall(old(mrm)@),
        key_signal@.len() == old(mrm).d,
        val_signal@.len() == old(mrm).d,
        (old(mrm).k_fine + old(mrm).k_coarse) * old(mrm).d * 4 <= usize::MAX,
    ensures
        exists|stream: Seq<Seq<A::T>>|
            stream.len() == context_len && draws_stream::<A>(
                *old(rng),
                old(mrm).d as nat,
                stream,
                *final(rng),
            ) && final(mrm)@ == #[trigger] old(mrm)@.emptied().streamed(
                stream,
                insert_pos as int,
                key_signal@,
                val_signal@,
                context_len as nat,
            ).adapted(key_signal@, val_signal@, use_fast_weights),
        r.1 == final(mrm)@.recall_cosine(key_signal@, val_signal@),
        r.0 == is_recalled::<A>(r.1),
        r.2 == (old(mrm).k_fine + old(mrm).k_coarse) * old(mrm).d * 4,
        fit_for_recall(final(mrm)@),
        final(mrm).d == old(mrm).d,
        final(mrm).k_fine == old(mrm).k_fine,
        final(mrm).k_coarse == old(mrm).k_coarse,
{
    let d: usize = mrm.d;
    let (k_fine, k_coarse): (usize, usize) = (mrm.k_fine, mrm.k_coarse);
    let stream = random_stream::<A>(rng, d, context_len);
    let (correct, cos_sim) = recall_from_stream(
        mrm,
        &stream,
        insert_pos,
        key_signal,
        val_signal,
        use_fast_weights,
    );
    assert(rows_in(stream@).len() == context_len);
    assert((k_fine + k_coarse) * d <= (k_fine + k_coarse) * d * 4) by (nonlinear_arith)
        requires
            k_fine >= 0,
            k_coarse >= 0,
            d >= 0,
    ;
    (correct, cos_sim, (k_fine + k_coarse) * d * 4)
}

/// The keys or values of a full cache: the stream, with a vector put in place of one of it.
pub open spec fn cache_of<A: Arith>(stream: Seq<Seq<A::T>>, pos: int, v: Seq<A::T>) -> Seq<
    Seq<A::T>,
> {
    Seq::new(stream.len(), |t: int| if t == pos { v } else { stream[t] })
}

/// Exact attention over a cache: softmax(q . K^T) . V
pub open spec fn attention_of<A: Arith>(
    query: Seq<A::T>,
    keys: Seq<Seq<A::T>>,
    values: Seq<Seq<A::T>>,
) -> Seq<A::T> {
    let scores = Seq::new(keys.len(), |i: int| dot_of::<A>(query, keys[i]));
    weighted_sum::<A>(query.len(), values, softmax_of::<A>(scores), values.len())
}

/// The cosine of the recall from a full cache with a needle in a given stream.
pub open spec fn cache_cosine<A: Arith>(
    stream: Seq<Seq<A::T>>,
    insert_pos: int,
    key: Seq<A::T>,
    val: Seq<A::T>,
) -> A::T {
    cosine_of::<A>(
        attention_of::<A>(
            key,
            cache_of::<A>(stream, insert_pos, key),
            cache_of::<A>(stream, insert_pos, val),
        ),
        val,
    )
}

/// Store all vectors of a stream, with a vector put in place of one of them.
fn fill_cache<A: Arith>(stream: &Vec<Vec<A::T>>, pos: usize, v: &[A::T]) -> (cache: Vec<
    Vec<A::T>,
>)
    requires
        all_of_len(rows_in(stream@), v@.len()),
    ensures
        rows_in(cache@) == cache_of::<A>(rows_in(stream@), pos as int, v@),
        all_of_len(rows_in(cache@), v@.len()),
        cache@.len() == stream@.len(),
{
    let n: usize = stream.len();
    let ghost want = cache_of::<A>(rows_in(stream@), pos as int, v@);
    let mut cache: Vec<Vec<A::T>> = Vec::with_capacity(n);
    let mut t: usize = 0;
    while t < n
        invariant
            t <= n,
            n == stream@.len(),
            want == cache_of::<A>(rows_in(stream@), pos as int, v@),
            all_of_len(rows_in(stream@), v@.len()),
            cache@.len() == t,
            forall|k: int|
                0 <= k < t ==> (#[trigger] cache@[k])@ == want[k] && cache@[k]@.len() == v@.len(),
        decreases n - t,
    {
        assert(rows_in(stream@)[t as int].len() == v@.len());
        if t == pos {
            cache.push(copied(v));
        } else {
            cache.push(copied(stream[t].as_slice()));
        }
        t += 1;
    }
    assert(rows_in(cache@) =~= want);
    cache
}

/// The recall of a needle from a full cache over a given stream: whether it is correct, and its
/// cosine.
pub fn recall_from_cache<A: Arith>(
    stream: &Vec<Vec<A::T>>,
    insert_pos: usize,
    key_signal: &[A::T],
    val_signal: &[A::T],
) -> (r: (bool, A::T))
    requires
        lawful::<A>(),
        all_of_len(rows_in(stream@), key_signal@.len()),
        val_signal@.len() == key_signal@.len(),
    ensures
        r.1 == cache_cosine::<A>(
            rows_in(stream@),
            insert_pos as int,
            key_signal@,
            val_signal@,
        ),
        r.0 == is_recalled::<A>(r.1),
{
    let n: usize = stream.len();
    let d: usize = key_signal.len();
    let kv_cache_k = fill_cache::<A>(stream, insert_pos, key_signal);
    let kv_cache_v = fill_cache::<A>(stream, insert_pos, val_signal);
    let ghost keys = rows_in(kv_cache_k@);
    // Exact attention: softmax(q . K^T) . V - query = key_signal
    let ghost want = Seq::new(keys.len(), |i: int| dot_of::<A>(key_signal@, keys[i]));
    let mut scores: Vec<A::T> = Vec::with_capacity(n);
    let mut i: usize = 0;
    while i < n
        invariant
            lawful::<A>(),
            i <= n,
            n == kv_cache_k@.len(),
            keys == rows_in(kv_cache_k@),
            all_of_len(keys, key_signal@.len()),
            want == Seq::new(keys.len(), |i: int| dot_of::<A>(key_signal@, keys[i])),
            scores@ == want.take(i as int),
        decreases n - i,
    {
        assert(keys[i as int].len() == key_signal@.len());
        scores.push(dot::<A>(key_signal, kv_cache_k[i].as_slice()));
        i += 1;
        assert(scores@ =~= want.take(i as int));
    }
    assert(want.take(i as int) =~= want);
    let mut probs = zero_vec::<A>(n);
    softmax::<A>(scores.as_slice(), probs.as_mut_slice());
    let recalled = mix::<A>(d, &kv_cache_v, probs.as_slice(), n);
    let cos_sim = cosine::<A>(recalled.as_slice(), val_signal);
    (A::exceeds(cos_sim, A::lit(7, 1)), cos_sim)
}

/// Transformer KV cache recall: exact attention over a full context of random vectors.
/// Stores every token key/value pair in RAM; O(N) memory, O(N) per-token compute.
/// Returns (correct, cosine_sim, memory_bytes).
pub fn recall_trial_transformer_kv<A: Arith>(
    context_len: usize,
    insert_pos: usize,
    key_signal: &[A::T],
    val_signal: &[A::T],
    rng: &mut StdRng,
) -> (r: (bool, A::T, usize))
    requires
        lawful::<A>(),
        val_signal@.len() == key_signal@.len(),
        context_len * key_signal@.len() * 2 * 4 <= usize::MAX,
    ensures
        exists|stream: Seq<Seq<A::T>>|
            stream.len() == context_len && draws_stream::<A>(
                *old(rng),
                key_signal@.len(),
                stream,
                *final(rng),
            ) && r.1 == #[trigger] cache_cosine::<A>(
                stream,
                insert_pos as int,
                key_signal@,
                val_signal@,
            ),
        r.0 == is_recalled::<A>(r.1),
        r.2 == context_len * key_signal@.len() * 2 * 4,
{
    let d: usize = key_signal.len();
    let stream = random_stream::<A>(rng, d, context_len);
    let (correct, cos_sim) = recall_from_cache::<A>(&stream, insert_pos, key_signal, val_signal);
    assert(rows_in(stream@).len() == context_len);
    assert(context_len * d <= context_len * d * 2 * 4) by (nonlinear_arith)
        requires
            context_len >= 0,
            d >= 0,
    ;
    // 2 (k+v) x d x 4 bytes
    (correct, cos_sim, context_len * d * 2 * 4)
}

/// Single recall trial result.
pub struct RecallResult<A: Arith, B: Arith> {
    pub context_len: usize,
    pub method: String,
    pub recall_correct: bool,
    pub best_cosine_sim: A::T,
    pub latency_us: B::T,
    pub memory_bytes: usize,
}

/// Aggregate recall statistics across trials.
pub struct RecallStats<A: Arith, B: Arith> {
    pub context_len: usize,
    pub method: String,
    pub accuracy: A::T,
    pub p50_latency_us: B::T,
    pub p95_latency_us: B::T,
    pub p99_latency_us: B::T,
    pub mean_cosine_sim: A::T,
    pub memory_bytes: usize,
}

/// The number of correct recalls among the first `n` trials.
pub open spec fn correct_of<A: Arith, B: Arith>(results: Seq<RecallResult<A, B>>, n: nat) -> nat
    decreases n,
{
    if n == 0 {
        0
    } else {
        correct_of(results, (n - 1) as nat) + (if results[n - 1].recall_correct {
            1nat
        } else {
            0
        })
    }
}

/// The cosines of the first `n` trials, summed up from zero.
pub open spec fn cosines_of<A: Arith, B: Arith>(results: Seq<RecallResult<A, B>>, n: nat) -> A::T
    decreases n,
{
    if n == 0 {
        zero::<A>()
    } else {
        s_plus::<A>(cosines_of(results, (n - 1) as nat), results[n - 1].best_cosine_sim)
    }
}

/// The latencies of trials.
pub open spec fn latencies_of<A: Arith, B: Arith>(results: Seq<RecallResult<A, B>>) -> Seq<B::T> {
    Seq::new(results.len(), |i: int| results[i].latency_us)
}

/// Aggregate trials. They share the context length, the method and the memory of the first.
pub fn compute_stats<A: Arith, B: Arith>(results: &[RecallResult<A, B>]) -> (stats: RecallStats<
    A,
    B,
>)
    requires
        lawful::<A>(),
        lawful::<B>(),
    ensures
        results@.len() == 0 ==> stats.context_len == 0 && stats.method@ == "?"@ && stats.accuracy
            == zero::<A>() && stats.mean_cosine_sim == zero::<A>() && stats.memory_bytes == 0
            && stats.p50_latency_us == zero::<B>() && stats.p95_latency_us == zero::<B>()
            && stats.p99_latency_us == zero::<B>(),
        ({
            let n = results@.len();
            n > 0 ==> {
                &&& stats.context_len == results@[0].context_len
                &&& stats.method@ == results@[0].method@
                &&& stats.memory_bytes == results@[0].memory_bytes
                &&& stats.accuracy == s_over::<A>(
                    s_count::<A>(correct_of(results@, n) as usize),
                    s_count::<A>(n as usize),
                )
                &&& stats.mean_cosine_sim == s_over::<A>(
                    cosines_of(results@, n),
                    s_count::<A>(n as usize),
                )
                &&& exists|sorted: Seq<B::T>|
                    {
                        &&& #[trigger] is_sorting::<B>(latencies_of(results@), sorted)
                        &&& stats.p50_latency_us == sorted[share_index::<A>(n, 50, 2)]
                        &&& stats.p95_latency_us == sorted[share_index::<A>(n, 95, 2)]
                        &&& stats.p99_latency_us == sorted[share_index::<A>(n, 99, 2)]
                    }
            }
        }),
{
    let n: usize = results.len();
    if n == 0 {
        return RecallStats {
            context_len: 0,
            method: "?".to_string(),
            accuracy: A::lit(0, 0),
            p50_latency_us: B::lit(0, 0),
            p95_latency_us: B::lit(0, 0),
            p99_latency_us: B::lit(0, 0),
            mean_cosine_sim: A::lit(0, 0),
            memory_bytes: 0,
        };
    }
    let mut correct: usize = 0;
    let mut cosines = A::lit(0, 0);
    let mut latencies: Vec<B::T> = Vec::with_capacity(n);
    let mut i: usize = 0;
    while i < n
        invariant
            lawful::<A>(),
            i <= n,
            n == results@.len(),
            correct == correct_of(results@, i as nat),
            correct <= i,
            cosines == cosines_of(results@, i as nat),
            latencies@ == latencies_of(results@).take(i as int),
        decreases n - i,
    {
        if results[i].recall_correct {
            correct += 1;
        }
        cosines = A::plus(cosines, results[i].best_cosine_sim);
        latencies.push(results[i].latency_us);
        i += 1;
        assert(latencies@ =~= latencies_of(results@).take(i as int));
    }
    assert(latencies@ =~= latencies_of(results@));
    let sorted = sorted_ascending::<B>(latencies.as_slice());
    assert(is_sorting::<B>(latencies_of(results@), sorted@));
    RecallStats {
        context_len: results[0].context_len,
        method: results[0].method.clone(),
        accuracy: A::over(A::count(correct), A::count(n)),
        p50_latency_us: sorted[index_at_share::<A>(n, 50, 2)],
        p95_latency_us: sorted[index_at_share::<A>(n, 95, 2)],
        p99_latency_us: sorted[index_at_share::<A>(n, 99, 2)],
        mean_cosine_sim: A::over(cosines, A::count(n)),
        memory_bytes: results[0].memory_bytes,
    }
}

/// How the memory did on the T1 kill criterion.
pub enum RecallVerdict<T> {
    /// Recall of more than 90 percent.
    Passed(T),
    /// No more recall than that.
    Failed(T),
    /// The memory was not tried at that length.
    Missing,
}

/// The statistics are those of the plain memory at 4K.
pub open spec fn is_mrm_at_4k<A: Arith, B: Arith>(s: RecallStats<A, B>) -> bool {
    &&& s.context_len == 4096
    &&& exists|i: int| #[trigger] part_at(s.method@, "MRM"@, i)
    &&& !exists|i: int| #[trigger] part_at(s.method@, "Fast"@, i)
}

/// The verdict on an accuracy.
pub open spec fn verdict_on<A: Arith>(accuracy: A::T) -> RecallVerdict<A::T> {
    if s_exceeds::<A>(accuracy, s_lit::<A>(90, 2)) {
        RecallVerdict::Passed(accuracy)
    } else {
        RecallVerdict::Failed(accuracy)
    }
}

/// T1 kill criterion: >90% recall @ 4K, by the first statistics of the plain memory there.
pub fn t1_verdict<A: Arith, B: Arith>(all_stats: &[RecallStats<A, B>]) -> (verdict: RecallVerdict<
    A::T,
>)
    requires
        lawful::<A>(),
    ensures
        verdict is Missing <==> forall|i: int|
            0 <= i < all_stats@.len() ==> !is_mrm_at_4k(#[trigger] all_stats@[i]),
        forall|i: int|
            0 <= i < all_stats@.len() && is_mrm_at_4k(#[trigger] all_stats@[i]) && (forall|k: int|
                0 <= k < i ==> !is_mrm_at_4k(#[trigger] all_stats@[k])) ==> verdict
                == verdict_on::<A>(all_stats@[i].accuracy),
{
    let mut i: usize = 0;
    while i < all_stats.len()
        invariant
            lawful::<A>(),
            i <= all_stats@.len(),
            forall|k: int| 0 <= k < i ==> !is_mrm_at_4k(#[trigger] all_stats@[k]),
        decreases all_stats@.len() - i,
    {
        let s = &all_stats[i];
        if s.context_len == 4096 && has_part(s.method.as_str(), "MRM") && !has_part(
            s.method.as_str(),
            "Fast",
        ) {
            assert(is_mrm_at_4k(all_stats@[i as int]));
            return if A::exceeds(s.accuracy, A::lit(90, 2)) {
                RecallVerdict::Passed(s.accuracy)
            } else {
                RecallVerdict::Failed(s.accuracy)
            };
        }
        i += 1;
    }
    RecallVerdict::Missing
}

} // verus!
