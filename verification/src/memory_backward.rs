//! Backpropagation through the memory of a FORGE block. A token changes the slots that later
//! tokens read, so the gradients at the slots are carried from token to token, from the last one
//! to the first. Which slots a token is written to is taken as given.

use vstd::prelude::*;
use crate::arith::{Arith, lawful, one, s_exceeds, s_lit, s_minus, s_times, zero};
use crate::forge_backprop::{raise_row, row_raised};
use crate::forge_model::{ForgeBlockGrads, ForgeGradValues};
use crate::forge_trainer::add_outer_scaled;
use crate::hebbian::{add_up_squares, sum_of_squares};
use crate::layer::{times_each, zero_vec};
use crate::matvec::{
    matvec_transposed_accumulate, matvec_transposed_of, outer_added, rows_added, summed,
};
use crate::mrm::{
    MrmValues, MultiResMemory, bank_scores, lemma_nearest, memory_keeps_its_size, nearest_of,
    push_scores, read_bank,
};
use crate::sequence::row_at;
use crate::softmax::{softmax, softmax_of};
use crate::tensor::{
    MatrixView, add_scaled, copied, dot, dot_of, lemma_row_bounds, part_mut, row_of, vec_add_scaled,
    vec_copy, with_row, zeros,
};
use crate::vectors::{mul_transposed, mul_vec, sum_vec, times_vec};

verus! {

/// The slots that a token was read from, and where it was written to.
pub struct ReadValues<T> {
    pub fine_keys: Seq<T>,
    pub fine_vals: Seq<T>,
    pub coarse_keys: Seq<T>,
    pub coarse_vals: Seq<T>,
    /// Whether the surprise gate let the token into the fine slots.
    pub written: bool,
    pub fine_slot: int,
    pub coarse_slot: int,
}

/// What is kept of the slots at a token.
pub struct ReadTrace<A: Arith> {
    pub fine_keys: Vec<A::T>,
    pub fine_vals: Vec<A::T>,
    pub coarse_keys: Vec<A::T>,
    pub coarse_vals: Vec<A::T>,
    pub written: bool,
    pub fine_slot: usize,
    pub coarse_slot: usize,
}

impl<A: Arith> View for ReadTrace<A> {
    type V = ReadValues<A::T>;

    open spec fn view(&self) -> ReadValues<A::T> {
        ReadValues {
            fine_keys: self.fine_keys@,
            fine_vals: self.fine_vals@,
            coarse_keys: self.coarse_keys@,
            coarse_vals: self.coarse_vals@,
            written: self.written,
            fine_slot: self.fine_slot as int,
            coarse_slot: self.coarse_slot as int,
        }
    }
}

/// Nothing was read.
pub open spec fn no_read<T>() -> ReadValues<T> {
    ReadValues {
        fine_keys: Seq::empty(),
        fine_vals: Seq::empty(),
        coarse_keys: Seq::empty(),
        coarse_vals: Seq::empty(),
        written: false,
        fine_slot: 0,
        coarse_slot: 0,
    }
}

impl<A: Arith> ReadTrace<A> {
    /// A token that read nothing.
    pub fn none() -> (read: Self)
        ensures
            read@ == no_read::<A::T>(),
    {
        let read = ReadTrace {
            fine_keys: Vec::new(),
            fine_vals: Vec::new(),
            coarse_keys: Vec::new(),
            coarse_vals: Vec::new(),
            written: false,
            fine_slot: 0,
            coarse_slot: 0,
        };
        assert(read@.fine_keys =~= no_read::<A::T>().fine_keys);
        assert(read@.fine_vals =~= no_read::<A::T>().fine_vals);
        assert(read@.coarse_keys =~= no_read::<A::T>().coarse_keys);
        assert(read@.coarse_vals =~= no_read::<A::T>().coarse_vals);
        read
    }
}

/// The gradients at the slots of a memory.
pub struct SlotValues<T> {
    pub fine_keys: Seq<T>,
    pub fine_vals: Seq<T>,
    pub coarse_keys: Seq<T>,
    pub coarse_vals: Seq<T>,
}

/// Gradients at the slots of a memory.
pub struct SlotGrads<A: Arith> {
    pub fine_keys: Vec<A::T>,
    pub fine_vals: Vec<A::T>,
    pub coarse_keys: Vec<A::T>,
    pub coarse_vals: Vec<A::T>,
}

impl<A: Arith> View for SlotGrads<A> {
    type V = SlotValues<A::T>;

    open spec fn view(&self) -> SlotValues<A::T> {
        SlotValues {
            fine_keys: self.fine_keys@,
            fine_vals: self.fine_vals@,
            coarse_keys: self.coarse_keys@,
            coarse_vals: self.coarse_vals@,
        }
    }
}

/// No gradients at the slots of a memory with `k_fine` and `k_coarse` slots.
pub open spec fn no_slot_grads<A: Arith>(k_fine: nat, k_coarse: nat, d: nat) -> SlotValues<A::T> {
    SlotValues {
        fine_keys: zeros::<A>(k_fine * d),
        fine_vals: zeros::<A>(k_fine * d),
        coarse_keys: zeros::<A>(k_coarse * d),
        coarse_vals: zeros::<A>(k_coarse * d),
    }
}

/// What the backward pass through a memory computes at a token.
pub struct MemoryBack<T> {
    pub wq: Seq<T>,
    pub wk: Seq<T>,
    pub wv: Seq<T>,
    pub wo: Seq<T>,
    /// The gradients at the slots before the token.
    pub slots: SlotValues<T>,
    /// The gradient at the token.
    pub d_h: Seq<T>,
}

/// Whether a slot is attended to.
pub open spec fn is_live<A: Arith>(key: Seq<A::T>) -> bool {
    s_exceeds::<A>(sum_of_squares::<A>(key, key.len()), s_lit::<A>(1, 6))
}

/// The gradients at the shares of the attention that the slots of a bank have. A share that is
/// too small reads nothing.
pub open spec fn shares_back<A: Arith>(
    vals: Seq<A::T>,
    probs: Seq<A::T>,
    d_attn: Seq<A::T>,
    k: nat,
) -> Seq<A::T> {
    Seq::new(
        k,
        |s: int|
            if s_exceeds::<A>(probs[s], s_lit::<A>(1, 6)) {
                dot_of::<A>(d_attn, row_of(vals, d_attn.len(), s))
            } else {
                zero::<A>()
            },
    )
}

/// The gradients at the scores behind a softmax: p * (d_p - p . d_p)
pub open spec fn softmax_back<A: Arith>(probs: Seq<A::T>, d_probs: Seq<A::T>) -> Seq<A::T> {
    let mean = dot_of::<A>(probs, d_probs);
    Seq::new(probs.len(), |s: int| s_times::<A>(probs[s], s_minus::<A>(d_probs[s], mean)))
}

/// The gradients at the values of the first `n` slots of a bank.
pub open spec fn vals_back<A: Arith>(
    d_vals: Seq<A::T>,
    probs: Seq<A::T>,
    d_attn: Seq<A::T>,
    n: nat,
) -> Seq<A::T>
    decreases n,
{
    if n == 0 {
        d_vals
    } else {
        let before = vals_back::<A>(d_vals, probs, d_attn, (n - 1) as nat);
        if s_exceeds::<A>(probs[n - 1], s_lit::<A>(1, 6)) {
            row_raised::<A>(before, d_attn.len(), n - 1, d_attn, probs[n - 1])
        } else {
            before
        }
    }
}

/// The gradients at the keys of the first `n` slots of a bank.
pub open spec fn keys_back<A: Arith>(
    d_keys: Seq<A::T>,
    keys: Seq<A::T>,
    d_scores: Seq<A::T>,
    q: Seq<A::T>,
    n: nat,
) -> Seq<A::T>
    decreases n,
{
    if n == 0 {
        d_keys
    } else {
        let before = keys_back::<A>(d_keys, keys, d_scores, q, (n - 1) as nat);
        if is_live::<A>(row_of(keys, q.len(), n - 1)) {
            row_raised::<A>(before, q.len(), n - 1, q, d_scores[n - 1])
        } else {
            before
        }
    }
}

/// The gradient at the query after the first `n` slots of a bank.
pub open spec fn query_back<A: Arith>(
    start: Seq<A::T>,
    keys: Seq<A::T>,
    d_scores: Seq<A::T>,
    n: nat,
) -> Seq<A::T>
    decreases n,
{
    if n == 0 {
        start
    } else {
        let before = query_back::<A>(start, keys, d_scores, (n - 1) as nat);
        let key = row_of(keys, start.len(), n - 1);
        if is_live::<A>(key) {
            add_scaled::<A>(before, key, d_scores[n - 1])
        } else {
            before
        }
    }
}

/// The gradient at what a token puts into its slots: all of what the slot holds where the fine
/// slot was written, and the new part of the average in the coarse slot.
pub open spec fn written_back<A: Arith>(
    d: nat,
    decay: A::T,
    r: ReadValues<A::T>,
    fine: Seq<A::T>,
    coarse: Seq<A::T>,
) -> Seq<A::T> {
    let part = times_each::<A>(s_minus::<A>(one::<A>(), decay), row_of(coarse, d, r.coarse_slot));
    if r.written {
        summed::<A>(part, row_of(fine, d, r.fine_slot))
    } else {
        part
    }
}

/// The gradients at the fine slots before a token: a slot that it overwrote had no part in what
/// came later.
pub open spec fn fine_before<A: Arith>(d: nat, r: ReadValues<A::T>, fine: Seq<A::T>) -> Seq<A::T> {
    if r.written {
        with_row(fine, d, r.fine_slot, zeros::<A>(d))
    } else {
        fine
    }
}

/// The gradients at the coarse slots before a token: the old part of the average.
pub open spec fn coarse_before<A: Arith>(
    d: nat,
    decay: A::T,
    r: ReadValues<A::T>,
    coarse: Seq<A::T>,
) -> Seq<A::T> {
    with_row(
        coarse,
        d,
        r.coarse_slot,
        times_each::<A>(decay, row_of(coarse, d, r.coarse_slot)),
    )
}

impl<A: Arith> MrmValues<A> {
    /// The slots that a token is read from, and where it is written to.
    pub open spec fn read_at(&self, h: Seq<A::T>) -> ReadValues<A::T> {
        let after = self.next(h, false);
        ReadValues {
            fine_keys: after.fine_keys,
            fine_vals: after.fine_vals,
            coarse_keys: after.coarse_keys,
            coarse_vals: after.coarse_vals,
            written: self.is_written(h),
            fine_slot: self.next_slot(),
            coarse_slot: nearest_of::<A>(
                self.coarse_keys,
                self.d,
                self.key_of(h),
                self.k_coarse,
            ).0,
        }
    }

    /// The memory with the slots of a token.
    pub open spec fn with_slots(&self, r: ReadValues<A::T>) -> MrmValues<A> {
        MrmValues {
            fine_keys: r.fine_keys,
            fine_vals: r.fine_vals,
            coarse_keys: r.coarse_keys,
            coarse_vals: r.coarse_vals,
            ..*self
        }
    }

    /// A token is read from slots of the memory.
    pub proof fn lemma_read_holds(&self, h: Seq<A::T>)
        requires
            self.accepts(h),
        ensures
            self.holds(self.read_at(h)),
    {
        memory_keeps_its_size::<A>(*self, h, false);
        lemma_nearest::<A>(self.coarse_keys, self.d, self.key_of(h), self.k_coarse);
    }

    /// The slots are those of this memory.
    pub open spec fn holds(&self, r: ReadValues<A::T>) -> bool {
        &&& r.fine_keys.len() == self.k_fine * self.d
        &&& r.fine_vals.len() == self.k_fine * self.d
        &&& r.coarse_keys.len() == self.k_coarse * self.d
        &&& r.coarse_vals.len() == self.k_coarse * self.d
        &&& r.written ==> 0 <= r.fine_slot < self.k_fine
        &&& 0 <= r.coarse_slot < self.k_coarse || self.d == 0 && r.coarse_slot == 0
    }

    /// The gradients are those at the slots of this memory.
    pub open spec fn holds_grads(&self, s: SlotValues<A::T>) -> bool {
        &&& s.fine_keys.len() == self.k_fine * self.d
        &&& s.fine_vals.len() == self.k_fine * self.d
        &&& s.coarse_keys.len() == self.k_coarse * self.d
        &&& s.coarse_vals.len() == self.k_coarse * self.d
    }

    /// The shares of the attention that the slots have for a query, fine slots first.
    pub open spec fn probs_of(&self, q: Seq<A::T>) -> Seq<A::T> {
        softmax_of::<A>(
            bank_scores::<A>(q, self.fine_keys, self.k_fine) + bank_scores::<A>(
                q,
                self.coarse_keys,
                self.k_coarse,
            ),
        )
    }

    /// The gradient at what was read, for the gradient `d_out` at the output.
    pub open spec fn read_back(&self, d_out: Seq<A::T>) -> Seq<A::T> {
        let projected = matvec_transposed_of::<A>(self.w_o, self.d, d_out);
        if self.fw_active {
            add_scaled::<A>(projected, self.fw_v, dot_of::<A>(self.fw_u, d_out))
        } else {
            projected
        }
    }

    /// Backward through the memory at a token, with the gradients `slots` that the later tokens
    /// leave at the slots behind it.
    pub open spec fn back(
        &self,
        r: ReadValues<A::T>,
        h: Seq<A::T>,
        d_out: Seq<A::T>,
        scale: A::T,
        slots: SlotValues<A::T>,
        g: ForgeGradValues<A::T>,
    ) -> MemoryBack<A::T> {
        let (d, kf, kc) = (self.d, self.k_fine, self.k_coarse);
        let decay = self.coarse_decay;
        let at = self.with_slots(r);
        let q = self.query_of(h);
        let probs = at.probs_of(q);
        let (fine_probs, coarse_probs) = (probs.take(kf as int), probs.skip(kf as int));
        let d_attn = self.read_back(d_out);
        // through the attention
        let d_scores = softmax_back::<A>(
            probs,
            shares_back::<A>(r.fine_vals, fine_probs, d_attn, kf) + shares_back::<A>(
                r.coarse_vals,
                coarse_probs,
                d_attn,
                kc,
            ),
        );
        let (d_fine, d_coarse) = (d_scores.take(kf as int), d_scores.skip(kf as int));
        let d_q = query_back::<A>(
            query_back::<A>(zeros::<A>(d), r.fine_keys, d_fine, kf),
            r.coarse_keys,
            d_coarse,
            kc,
        );
        let fine_keys = keys_back::<A>(slots.fine_keys, r.fine_keys, d_fine, q, kf);
        let fine_vals = vals_back::<A>(slots.fine_vals, fine_probs, d_attn, kf);
        let coarse_keys = keys_back::<A>(slots.coarse_keys, r.coarse_keys, d_coarse, q, kc);
        let coarse_vals = vals_back::<A>(slots.coarse_vals, coarse_probs, d_attn, kc);
        // through the writes
        let d_k = written_back::<A>(d, decay, r, fine_keys, coarse_keys);
        let d_v = written_back::<A>(d, decay, r, fine_vals, coarse_vals);
        MemoryBack {
            wq: outer_added::<A>(g.wq, d_q, h, scale),
            wk: outer_added::<A>(g.wk, d_k, h, scale),
            wv: outer_added::<A>(g.wv, d_v, h, scale),
            wo: outer_added::<A>(g.wo, d_out, at.read_of(q), scale),
            slots: SlotValues {
                fine_keys: fine_before::<A>(d, r, fine_keys),
                fine_vals: fine_before::<A>(d, r, fine_vals),
                coarse_keys: coarse_before::<A>(d, decay, r, coarse_keys),
                coarse_vals: coarse_before::<A>(d, decay, r, coarse_vals),
            },
            d_h: rows_added::<A>(
                rows_added::<A>(rows_added::<A>(d_out, self.w_q, d_q, d), self.w_k, d_k, d),
                self.w_v,
                d_v,
                d,
            ),
        }
    }
}

/// Append the gradients at the shares of the attention that the slots of a bank have.
fn push_shares_back<A: Arith>(
    d_probs: &mut Vec<A::T>,
    vals: &[A::T],
    probs: &[A::T],
    d_attn: &[A::T],
    k: usize,
)
    requires
        lawful::<A>(),
        vals@.len() == k * d_attn@.len(),
        probs@.len() == k,
    ensures
        final(d_probs)@ == old(d_probs)@ + shares_back::<A>(vals@, probs@, d_attn@, k as nat),
{
    let d: usize = d_attn.len();
    let ghost before = d_probs@;
    let ghost want = shares_back::<A>(vals@, probs@, d_attn@, k as nat);
    let mut s: usize = 0;
    while s < k
        invariant
            lawful::<A>(),
            s <= k,
            d == d_attn@.len(),
            vals@.len() == k * d,
            probs@.len() == k,
            want == shares_back::<A>(vals@, probs@, d_attn@, k as nat),
            d_probs@ == before + want.take(s as int),
        decreases k - s,
    {
        proof {
            lemma_row_bounds(k as nat, d as nat, s as int);
        }
        if A::exceeds(probs[s], A::lit(1, 6)) {
            d_probs.push(dot::<A>(d_attn, row_at(vals, d, s)));
        } else {
            d_probs.push(A::lit(0, 0));
        }
        s += 1;
        assert(d_probs@ =~= before + want.take(s as int));
    }
    assert(want.take(k as int) =~= want);
}

/// The gradients at the scores behind a softmax.
fn scores_back<A: Arith>(probs: &[A::T], d_probs: &[A::T]) -> (d_scores: Vec<A::T>)
    requires
        lawful::<A>(),
        probs@.len() == d_probs@.len(),
    ensures
        d_scores@ == softmax_back::<A>(probs@, d_probs@),
        d_scores@.len() == probs@.len(),
{
    let n: usize = probs.len();
    let mean = dot::<A>(probs, d_probs);
    let mut d_scores: Vec<A::T> = Vec::with_capacity(n);
    let ghost want = softmax_back::<A>(probs@, d_probs@);
    let mut s: usize = 0;
    while s < n
        invariant
            lawful::<A>(),
            s <= n,
            n == probs@.len(),
            n == d_probs@.len(),
            mean == dot_of::<A>(probs@, d_probs@),
            want == softmax_back::<A>(probs@, d_probs@),
            d_scores@ == want.take(s as int),
        decreases n - s,
    {
        d_scores.push(A::times(probs[s], A::minus(d_probs[s], mean)));
        s += 1;
        assert(d_scores@ =~= want.take(s as int));
    }
    assert(d_scores@ =~= want);
    d_scores
}

/// Add to the gradients at the values of the slots of a bank.
fn add_vals_back<A: Arith>(d_vals: &mut [A::T], probs: &[A::T], d_attn: &[A::T], k: usize)
    requires
        lawful::<A>(),
        old(d_vals)@.len() == k * d_attn@.len(),
        probs@.len() == k,
    ensures
        final(d_vals)@ == vals_back::<A>(old(d_vals)@, probs@, d_attn@, k as nat),
        final(d_vals)@.len() == old(d_vals)@.len(),
{
    let ghost start = d_vals@;
    let mut s: usize = 0;
    while s < k
        invariant
            lawful::<A>(),
            s <= k,
            start.len() == k * d_attn@.len(),
            d_vals@.len() == start.len(),
            probs@.len() == k,
            d_vals@ == vals_back::<A>(start, probs@, d_attn@, s as nat),
        decreases k - s,
    {
        if A::exceeds(probs[s], A::lit(1, 6)) {
            raise_row::<A>(d_vals, Ghost(k as nat), s, d_attn, probs[s]);
        }
        s += 1;
    }
}

/// Add to the gradients at the keys of the slots of a bank, and to that at the query.
fn add_keys_back<A: Arith>(
    d_keys: &mut [A::T],
    d_q: &mut [A::T],
    keys: &[A::T],
    d_scores: &[A::T],
    q: &[A::T],
    k: usize,
)
    requires
        lawful::<A>(),
        old(d_keys)@.len() == k * q@.len(),
        keys@.len() == k * q@.len(),
        old(d_q)@.len() == q@.len(),
        d_scores@.len() == k,
    ensures
        final(d_keys)@ == keys_back::<A>(old(d_keys)@, keys@, d_scores@, q@, k as nat),
        final(d_keys)@.len() == old(d_keys)@.len(),
        final(d_q)@ == query_back::<A>(old(d_q)@, keys@, d_scores@, k as nat),
        final(d_q)@.len() == old(d_q)@.len(),
{
    let d: usize = q.len();
    let ghost (start, q0) = (d_keys@, d_q@);
    let mut s: usize = 0;
    while s < k
        invariant
            lawful::<A>(),
            s <= k,
            d == q@.len(),
            start.len() == k * d,
            keys@.len() == k * d,
            d_keys@.len() == start.len(),
            q0.len() == d,
            d_q@.len() == d,
            d_scores@.len() == k,
            d_keys@ == keys_back::<A>(start, keys@, d_scores@, q@, s as nat),
            d_q@ == query_back::<A>(q0, keys@, d_scores@, s as nat),
        decreases k - s,
    {
        proof {
            lemma_row_bounds(k as nat, d as nat, s as int);
        }
        let key = row_at(keys, d, s);
        let norm_sq = add_up_squares::<A>(key);
        if A::exceeds(norm_sq, A::lit(1, 6)) {
            raise_row::<A>(d_keys, Ghost(k as nat), s, q, d_scores[s]);
            vec_add_scaled::<A>(d_q, key, d_scores[s]);
        }
        s += 1;
    }
}

/// The gradient at what a token put into a bank of coarse slots and one of fine slots; what is
/// left are the gradients at the slots before the token.
fn take_written<A: Arith>(
    fine: &mut Vec<A::T>,
    coarse: &mut Vec<A::T>,
    Ghost(kf): Ghost<nat>,
    Ghost(kc): Ghost<nat>,
    d: usize,
    decay: A::T,
    r: &ReadTrace<A>,
) -> (delta: Vec<A::T>)
    requires
        lawful::<A>(),
        old(fine)@.len() == kf * d,
        old(coarse)@.len() == kc * d,
        r.written ==> r.fine_slot < kf,
        r.coarse_slot < kc || d == 0 && r.coarse_slot == 0,
    ensures
        delta@ == written_back::<A>(d as nat, decay, r@, old(fine)@, old(coarse)@),
        delta@.len() == d,
        final(fine)@ == fine_before::<A>(d as nat, r@, old(fine)@),
        final(fine)@.len() == old(fine)@.len(),
        final(coarse)@ == coarse_before::<A>(d as nat, decay, r@, old(coarse)@),
        final(coarse)@.len() == old(coarse)@.len(),
{
    proof {
        assert(coarse.len() == coarse@.len());
        assert(fine.len() == fine@.len());
        if r.coarse_slot < kc {
            lemma_row_bounds(kc, d as nat, r.coarse_slot as int);
        } else {
            assert(kc * d == 0) by (nonlinear_arith)
                requires
                    d == 0,
            ;
        }
        if r.written {
            lemma_row_bounds(kf, d as nat, r.fine_slot as int);
        }
    }
    let row = copied(row_at(coarse.as_slice(), d, r.coarse_slot));
    let part = times_vec::<A>(A::minus(A::lit(1, 0), decay), row.as_slice());
    let kept = times_vec::<A>(decay, row.as_slice());
    let at: usize = r.coarse_slot * d;
    vec_copy(part_mut(coarse.as_mut_slice(), at, d), kept.as_slice());
    if r.written {
        let delta = sum_vec::<A>(part.as_slice(), row_at(fine.as_slice(), d, r.fine_slot));
        let blank = zero_vec::<A>(d);
        let at: usize = r.fine_slot * d;
        vec_copy(part_mut(fine.as_mut_slice(), at, d), blank.as_slice());
        delta
    } else {
        part
    }
}

impl<A: Arith> MultiResMemory<A> {
    /// The coarse slot that a token is written to.
    pub fn coarse_slot_for(&self, h: &[A::T]) -> (slot: usize)
        requires
            lawful::<A>(),
            self.wf(),
            h@.len() == self.d,
        ensures
            slot == nearest_of::<A>(
                self@.coarse_keys,
                self@.d,
                self@.key_of(h@),
                self@.k_coarse,
            ).0,
    {
        let key = mul_vec::<A>(self.w_k.as_slice(), self.d, h);
        self.nearest_coarse(key.as_slice())
    }

    /// Backward through the memory at a token. Adds to the gradients of the projections, turns
    /// the gradients at the slots behind the token into those before it, and returns the
    /// gradient at the token.
    pub fn backward(
        &self,
        r: &ReadTrace<A>,
        h: &[A::T],
        d_out: &[A::T],
        scale: A::T,
        slots: &mut SlotGrads<A>,
        grads: &mut ForgeBlockGrads<A>,
    ) -> (d_h: Vec<A::T>)
        requires
            lawful::<A>(),
            self.wf(),
            self.k_fine + self.k_coarse <= usize::MAX,
            self@.holds(r@),
            self@.holds_grads(old(slots)@),
            h@.len() == self.d,
            d_out@.len() == self.d,
            old(grads)@.wq.len() == self.d * self.d,
            old(grads)@.wk.len() == self.d * self.d,
            old(grads)@.wv.len() == self.d * self.d,
            old(grads)@.wo.len() == self.d * self.d,
        ensures
            ({
                let b = self@.back(r@, h@, d_out@, scale, old(slots)@, old(grads)@);
                &&& d_h@ == b.d_h
                &&& final(slots)@ == b.slots
                &&& final(grads)@ == (ForgeGradValues {
                    wq: b.wq,
                    wk: b.wk,
                    wv: b.wv,
                    wo: b.wo,
                    ..old(grads)@
                })
            }),
            d_h@.len() == self.d,
            self@.holds_grads(final(slots)@),
            final(grads)@.wq.len() == self.d * self.d,
            final(grads)@.wk.len() == self.d * self.d,
            final(grads)@.wv.len() == self.d * self.d,
            final(grads)@.wo.len() == self.d * self.d,
    {
        let d: usize = self.d;
        let kf: usize = self.k_fine;
        let kc: usize = self.k_coarse;
        let ghost at = self@.with_slots(r@);
        let q = mul_vec::<A>(self.w_q.as_slice(), d, h);
        // the attention of the token
        let mut scores: Vec<A::T> = Vec::with_capacity(kf + kc);
        push_scores::<A>(&mut scores, q.as_slice(), r.fine_keys.as_slice(), kf);
        push_scores::<A>(&mut scores, q.as_slice(), r.coarse_keys.as_slice(), kc);
        assert(scores@ =~= bank_scores::<A>(q@, r.fine_keys@, kf as nat) + bank_scores::<A>(
            q@,
            r.coarse_keys@,
            kc as nat,
        ));
        let mut probs = zero_vec::<A>(scores.len());
        softmax::<A>(scores.as_slice(), probs.as_mut_slice());
        let fine_probs = vstd::slice::slice_subrange(probs.as_slice(), 0, kf);
        let coarse_probs = vstd::slice::slice_subrange(probs.as_slice(), kf, probs.len());
        assert(fine_probs@ =~= at.probs_of(q@).take(kf as int));
        assert(coarse_probs@ =~= at.probs_of(q@).skip(kf as int));
        let mut attn = zero_vec::<A>(d);
        read_bank::<A>(attn.as_mut_slice(), r.fine_vals.as_slice(), fine_probs, kf);
        read_bank::<A>(attn.as_mut_slice(), r.coarse_vals.as_slice(), coarse_probs, kc);
        assert(attn@ == at.read_of(q@));
        // through the output projection
        add_outer_scaled::<A>(&mut grads.grad_mrm_wo, d_out, attn.as_slice(), scale);
        let mut d_attn = mul_transposed::<A>(self.w_o.as_slice(), d, d_out);
        if self.fw_active {
            let along = dot::<A>(self.fw_u.as_slice(), d_out);
            vec_add_scaled::<A>(d_attn.as_mut_slice(), self.fw_v.as_slice(), along);
        }
        assert(d_attn@ == self@.read_back(d_out@));
        // through the attention
        let mut d_probs: Vec<A::T> = Vec::with_capacity(kf + kc);
        push_shares_back::<A>(
            &mut d_probs,
            r.fine_vals.as_slice(),
            fine_probs,
            d_attn.as_slice(),
            kf,
        );
        push_shares_back::<A>(
            &mut d_probs,
            r.coarse_vals.as_slice(),
            coarse_probs,
            d_attn.as_slice(),
            kc,
        );
        assert(d_probs@ =~= shares_back::<A>(r.fine_vals@, fine_probs@, d_attn@, kf as nat)
            + shares_back::<A>(r.coarse_vals@, coarse_probs@, d_attn@, kc as nat));
        let d_scores = scores_back::<A>(probs.as_slice(), d_probs.as_slice());
        let d_fine = vstd::slice::slice_subrange(d_scores.as_slice(), 0, kf);
        let d_coarse = vstd::slice::slice_subrange(d_scores.as_slice(), kf, d_scores.len());
        assert(d_fine@ =~= d_scores@.take(kf as int));
        assert(d_coarse@ =~= d_scores@.skip(kf as int));
        let mut d_q = zero_vec::<A>(d);
        add_keys_back::<A>(
            slots.fine_keys.as_mut_slice(),
            d_q.as_mut_slice(),
            r.fine_keys.as_slice(),
            d_fine,
            q.as_slice(),
            kf,
        );
        add_keys_back::<A>(
            slots.coarse_keys.as_mut_slice(),
            d_q.as_mut_slice(),
            r.coarse_keys.as_slice(),
            d_coarse,
            q.as_slice(),
            kc,
        );
        add_vals_back::<A>(slots.fine_vals.as_mut_slice(), fine_probs, d_attn.as_slice(), kf);
        add_vals_back::<A>(slots.coarse_vals.as_mut_slice(), coarse_probs, d_attn.as_slice(), kc);
        // through the writes
        let d_k = take_written::<A>(
            &mut slots.fine_keys,
            &mut slots.coarse_keys,
            Ghost(kf as nat),
            Ghost(kc as nat),
            d,
            self.coarse_decay,
            r,
        );
        let d_v = take_written::<A>(
            &mut slots.fine_vals,
            &mut slots.coarse_vals,
            Ghost(kf as nat),
            Ghost(kc as nat),
            d,
            self.coarse_decay,
            r,
        );
        // through the projections of the token
        add_outer_scaled::<A>(&mut grads.grad_mrm_wq, d_q.as_slice(), h, scale);
        add_outer_scaled::<A>(&mut grads.grad_mrm_wk, d_k.as_slice(), h, scale);
        add_outer_scaled::<A>(&mut grads.grad_mrm_wv, d_v.as_slice(), h, scale);
        let mut d_h = copied(d_out);
        let wq = MatrixView::new(self.w_q.as_slice(), d, d);
        matvec_transposed_accumulate::<A>(&wq, d_q.as_slice(), d_h.as_mut_slice());
        let wk = MatrixView::new(self.w_k.as_slice(), d, d);
        matvec_transposed_accumulate::<A>(&wk, d_k.as_slice(), d_h.as_mut_slice());
        let wv = MatrixView::new(self.w_v.as_slice(), d, d);
        matvec_transposed_accumulate::<A>(&wv, d_v.as_slice(), d_h.as_mut_slice());
        d_h
    }
}

} // verus!
