//! Multi-Resolution Memory (MRM): fixed-slot content-addressable store with
//! two resolution levels (fine-grain and coarse-summary), surprise-gated writes,
//! and rank-1 fast-weight adaptation.
//!
//! Design invariants:
//! - O(1) read/write per token (slot count fixed, independent of context length)
//! - Surprise gate: write to fine slots only when |h_t - predicted| > threshold
//! - Fast weights: rank-1 outer product update to W_o at test time, zero gradient steps

use vstd::prelude::*;
use crate::activations::squared_distance;
use crate::arith::{
    Arith, lawful, one, s_count, s_exceeds, s_exp, s_larger, s_lit, s_minus, s_neg_inf, s_negate,
    s_over, s_plus, s_sqrt, s_times, zero,
};
use crate::hebbian::{add_up_squares, sum_of_squares};
use crate::layer::zero_vec;
use crate::matvec::{matvec, matvec_of};
use crate::rng::{WeightDraw, WeightSource, drawn_from_seed, scale_for, weight_scale};
use crate::sequence::{row_at, write_row};
use crate::softmax::{softmax, softmax_of};
use crate::tensor::{
    MatrixView, add_scaled, copied, dot, dot_of, lemma_row_bounds, lemma_with_row, row_of,
    vec_add_scaled, vec_copy, vec_zero, with_row, zeros,
};
use crate::vectors::mul_vec;

verus! {

/// Per-token gate/write diagnostic record for Experiment E3.
#[derive(Debug, Clone)]
pub struct GateRecord<A: Arith> {
    pub surprise_magnitude: A::T,
    pub gate_value: A::T,
    pub written: bool,
}

/// Aggregated per-run diagnostics.
pub struct MrmStats<A: Arith> {
    pub total_tokens: usize,
    pub total_writes: usize,
    pub gate_records: Vec<GateRecord<A>>,
    /// Recall experiment: position and whether it was recalled correctly.
    pub recall_results: Vec<(usize, bool)>,
}

impl<A: Arith> Default for MrmStats<A> {
    fn default() -> (stats: Self)
        ensures
            stats.total_tokens == 0,
            stats.total_writes == 0,
            stats.gate_records@ == Seq::<GateRecord<A>>::empty(),
            stats.recall_results@ == Seq::<(usize, bool)>::empty(),
    {
        MrmStats {
            total_tokens: 0,
            total_writes: 0,
            gate_records: Vec::new(),
            recall_results: Vec::new(),
        }
    }
}

impl<A: Arith> Clone for MrmStats<A> {
    fn clone(&self) -> (stats: Self)
        ensures
            stats.total_tokens == self.total_tokens,
            stats.total_writes == self.total_writes,
            stats.gate_records@ == self.gate_records@,
            stats.recall_results@ == self.recall_results@,
    {
        let n: usize = self.gate_records.len();
        let mut gate_records: Vec<GateRecord<A>> = Vec::with_capacity(n);
        let mut i: usize = 0;
        while i < n
            invariant
                i <= n,
                n == self.gate_records@.len(),
                gate_records@ == self.gate_records@.take(i as int),
            decreases n - i,
        {
            let r = &self.gate_records[i];
            gate_records.push(
                GateRecord {
                    surprise_magnitude: r.surprise_magnitude,
                    gate_value: r.gate_value,
                    written: r.written,
                },
            );
            i += 1;
            assert(gate_records@ =~= self.gate_records@.take(i as int));
        }
        assert(gate_records@ =~= self.gate_records@);
        MrmStats {
            total_tokens: self.total_tokens,
            total_writes: self.total_writes,
            gate_records,
            recall_results: copied(self.recall_results.as_slice()),
        }
    }
}

impl<A: Arith> MrmStats<A> {
    /// The share of the tokens that were not written.
    pub fn skip_rate(&self) -> (rate: A::T)
        requires
            lawful::<A>(),
            self.total_writes <= self.total_tokens,
        ensures
            rate == if self.total_tokens == 0 {
                zero::<A>()
            } else {
                s_over::<A>(
                    s_count::<A>((self.total_tokens - self.total_writes) as usize),
                    s_count::<A>(self.total_tokens),
                )
            },
    {
        if self.total_tokens == 0 {
            return A::lit(0, 0);
        }
        let skips: usize = self.total_tokens - self.total_writes;
        A::over(A::count(skips), A::count(self.total_tokens))
    }

    /// The share of the tokens that were written.
    pub fn write_rate(&self) -> (rate: A::T)
        requires
            lawful::<A>(),
        ensures
            rate == if self.total_tokens == 0 {
                zero::<A>()
            } else {
                s_over::<A>(s_count::<A>(self.total_writes), s_count::<A>(self.total_tokens))
            },
    {
        if self.total_tokens == 0 {
            return A::lit(0, 0);
        }
        A::over(A::count(self.total_writes), A::count(self.total_tokens))
    }
}

/// Fixed-capacity content-addressable memory with two resolution tiers.
///
/// Fine slots  (K_f): high-fidelity, surprise-gated recent storage.
/// Coarse slots(K_c): compressed summary, always updated (EMA-style).
///
/// Read:  query both banks, weighted-sum by softmax attention scores.
/// Write: fine slots gated by surprise; one coarse slot by EMA always.
pub struct MultiResMemory<A: Arith> {
    pub d: usize,
    /// Number of fine slots.
    pub k_fine: usize,
    /// Number of coarse slots.
    pub k_coarse: usize,
    // Slot stores: (slots x d) row-major
    pub fine_keys: Vec<A::T>,
    pub fine_vals: Vec<A::T>,
    pub coarse_keys: Vec<A::T>,
    pub coarse_vals: Vec<A::T>,
    /// Write pointer (ring buffer for fine slots).
    pub write_ptr: usize,
    /// Surprise gate threshold (learned scalar, but treated as hyperparam here).
    pub surprise_threshold: A::T,
    /// EMA decay for coarse slots.
    pub coarse_decay: A::T,
    // Projections, each (d x d)
    pub w_k: Vec<A::T>,
    pub w_v: Vec<A::T>,
    pub w_q: Vec<A::T>,
    pub w_o: Vec<A::T>,
    // Fast-weight rank-1 delta: W_fw = W_o + outer(u, v), each (d)
    pub fw_u: Vec<A::T>,
    pub fw_v: Vec<A::T>,
    pub fw_active: bool,
    pub stats: MrmStats<A>,
    /// Running mean for surprise detection (EMA of h).
    pub mean_h: Vec<A::T>,
    pub mean_decay: A::T,
}

/// All that a memory holds.
#[verifier::ext_equal]
pub struct MrmValues<A: Arith> {
    pub d: nat,
    pub k_fine: nat,
    pub k_coarse: nat,
    pub fine_keys: Seq<A::T>,
    pub fine_vals: Seq<A::T>,
    pub coarse_keys: Seq<A::T>,
    pub coarse_vals: Seq<A::T>,
    pub write_ptr: usize,
    pub surprise_threshold: A::T,
    pub coarse_decay: A::T,
    pub w_k: Seq<A::T>,
    pub w_v: Seq<A::T>,
    pub w_q: Seq<A::T>,
    pub w_o: Seq<A::T>,
    pub fw_u: Seq<A::T>,
    pub fw_v: Seq<A::T>,
    pub fw_active: bool,
    pub total_tokens: int,
    pub total_writes: int,
    pub gate_records: Seq<GateRecord<A>>,
    pub recall_results: Seq<(usize, bool)>,
    pub mean_h: Seq<A::T>,
    pub mean_decay: A::T,
}

impl<A: Arith> View for MultiResMemory<A> {
    type V = MrmValues<A>;

    open spec fn view(&self) -> MrmValues<A> {
        MrmValues {
            d: self.d as nat,
            k_fine: self.k_fine as nat,
            k_coarse: self.k_coarse as nat,
            fine_keys: self.fine_keys@,
            fine_vals: self.fine_vals@,
            coarse_keys: self.coarse_keys@,
            coarse_vals: self.coarse_vals@,
            write_ptr: self.write_ptr,
            surprise_threshold: self.surprise_threshold,
            coarse_decay: self.coarse_decay,
            w_k: self.w_k@,
            w_v: self.w_v@,
            w_q: self.w_q@,
            w_o: self.w_o@,
            fw_u: self.fw_u@,
            fw_v: self.fw_v@,
            fw_active: self.fw_active,
            total_tokens: self.stats.total_tokens as int,
            total_writes: self.stats.total_writes as int,
            gate_records: self.stats.gate_records@,
            recall_results: self.stats.recall_results@,
            mean_h: self.mean_h@,
            mean_decay: self.mean_decay,
        }
    }
}

impl<A: Arith> Clone for MultiResMemory<A> {
    fn clone(&self) -> (mrm: Self)
        ensures
            mrm@ == self@,
    {
        MultiResMemory {
            d: self.d,
            k_fine: self.k_fine,
            k_coarse: self.k_coarse,
            fine_keys: copied(self.fine_keys.as_slice()),
            fine_vals: copied(self.fine_vals.as_slice()),
            coarse_keys: copied(self.coarse_keys.as_slice()),
            coarse_vals: copied(self.coarse_vals.as_slice()),
            write_ptr: self.write_ptr,
            surprise_threshold: self.surprise_threshold,
            coarse_decay: self.coarse_decay,
            w_k: copied(self.w_k.as_slice()),
            w_v: copied(self.w_v.as_slice()),
            w_q: copied(self.w_q.as_slice()),
            w_o: copied(self.w_o.as_slice()),
            fw_u: copied(self.fw_u.as_slice()),
            fw_v: copied(self.fw_v.as_slice()),
            fw_active: self.fw_active,
            stats: self.stats.clone(),
            mean_h: copied(self.mean_h.as_slice()),
            mean_decay: self.mean_decay,
        }
    }
}

/// How far a surprise opens the surprise gate: sigmoid((surprise - threshold) * 10)
pub open spec fn gate_of<A: Arith>(surprise: A::T, threshold: A::T) -> A::T {
    s_over::<A>(
        one::<A>(),
        s_plus::<A>(
            one::<A>(),
            s_exp::<A>(
                s_times::<A>(
                    s_negate::<A>(s_minus::<A>(surprise, threshold)),
                    s_lit::<A>(10, 0),
                ),
            ),
        ),
    )
}

/// The exponential moving average of two vectors: decay * old + (1 - decay) * new
pub open spec fn averaged<A: Arith>(decay: A::T, old_v: Seq<A::T>, new_v: Seq<A::T>) -> Seq<A::T> {
    Seq::new(
        old_v.len(),
        |i: int|
            s_plus::<A>(
                s_times::<A>(decay, old_v[i]),
                s_times::<A>(s_minus::<A>(one::<A>(), decay), new_v[i]),
            ),
    )
}

/// The slot with the largest inner product with `key` among the first `n`, and that product.
/// The first such slot counts; with none that exceeds the lowest value it is the first slot.
pub open spec fn nearest_of<A: Arith>(keys: Seq<A::T>, d: nat, key: Seq<A::T>, n: nat) -> (
    int,
    A::T,
)
    decreases n,
{
    if n == 0 {
        (0, s_neg_inf::<A>())
    } else {
        let before = nearest_of::<A>(keys, d, key, (n - 1) as nat);
        let sim = dot_of::<A>(key, row_of(keys, d, n - 1));
        if s_exceeds::<A>(sim, before.1) {
            (n - 1, sim)
        } else {
            before
        }
    }
}

/// The score of a slot: only slots that were written (with a norm) are attended to.
pub open spec fn slot_score<A: Arith>(q: Seq<A::T>, key: Seq<A::T>) -> A::T {
    if s_exceeds::<A>(sum_of_squares::<A>(key, key.len()), s_lit::<A>(1, 6)) {
        dot_of::<A>(q, key)
    } else {
        s_neg_inf::<A>()
    }
}

/// The scores of the slots of a bank.
pub open spec fn bank_scores<A: Arith>(q: Seq<A::T>, keys: Seq<A::T>, k: nat) -> Seq<A::T> {
    Seq::new(k, |s: int| slot_score::<A>(q, row_of(keys, q.len(), s)))
}

/// The values of the first `n` slots of a bank added to `start`, each with its share of the
/// attention. A share that is too small is left out.
pub open spec fn bank_read<A: Arith>(
    start: Seq<A::T>,
    vals: Seq<A::T>,
    probs: Seq<A::T>,
    n: nat,
) -> Seq<A::T>
    decreases n,
{
    if n == 0 {
        start
    } else {
        let before = bank_read::<A>(start, vals, probs, (n - 1) as nat);
        if s_exceeds::<A>(probs[n - 1], s_lit::<A>(1, 6)) {
            add_scaled::<A>(before, row_of(vals, start.len(), n - 1), probs[n - 1])
        } else {
            before
        }
    }
}

/// The best slot for a query among the first `n`: its value and its cosine similarity. Slots
/// without a norm are passed over.
pub open spec fn recalled<A: Arith>(
    q: Seq<A::T>,
    keys: Seq<A::T>,
    vals: Seq<A::T>,
    n: nat,
) -> (Seq<A::T>, A::T)
    decreases n,
{
    if n == 0 {
        (zeros::<A>(q.len()), s_neg_inf::<A>())
    } else {
        let before = recalled::<A>(q, keys, vals, (n - 1) as nat);
        let key = row_of(keys, q.len(), n - 1);
        let norm_sq = sum_of_squares::<A>(key, key.len());
        let sim = s_over::<A>(
            dot_of::<A>(q, key),
            s_times::<A>(
                s_larger::<A>(s_sqrt::<A>(norm_sq), s_lit::<A>(1, 6)),
                s_larger::<A>(s_sqrt::<A>(dot_of::<A>(q, q)), s_lit::<A>(1, 6)),
            ),
        );
        if !s_exceeds::<A>(s_lit::<A>(1, 6), norm_sq) && s_exceeds::<A>(sim, before.1) {
            (row_of(vals, q.len(), n - 1), sim)
        } else {
            before
        }
    }
}

impl<A: Arith> MrmValues<A> {
    /// All parts are as large as the dimension and the numbers of slots say.
    pub open spec fn wf(&self) -> bool {
        &&& self.fine_keys.len() == self.k_fine * self.d
        &&& self.fine_vals.len() == self.k_fine * self.d
        &&& self.coarse_keys.len() == self.k_coarse * self.d
        &&& self.coarse_vals.len() == self.k_coarse * self.d
        &&& self.w_k.len() == self.d * self.d
        &&& self.w_v.len() == self.d * self.d
        &&& self.w_q.len() == self.d * self.d
        &&& self.w_o.len() == self.d * self.d
        &&& self.fw_u.len() == self.d
        &&& self.fw_v.len() == self.d
        &&& self.mean_h.len() == self.d
    }

    /// The surprise of a vector: its distance from the running mean.
    pub open spec fn surprise_of(&self, h: Seq<A::T>) -> A::T {
        s_sqrt::<A>(squared_distance::<A>(h, self.mean_h, self.d))
    }

    /// The key of a vector.
    pub open spec fn key_of(&self, h: Seq<A::T>) -> Seq<A::T> {
        matvec_of::<A>(self.w_k, self.d, h)
    }

    /// The value of a vector.
    pub open spec fn value_of(&self, h: Seq<A::T>) -> Seq<A::T> {
        matvec_of::<A>(self.w_v, self.d, h)
    }

    /// The query of a vector.
    pub open spec fn query_of(&self, h: Seq<A::T>) -> Seq<A::T> {
        matvec_of::<A>(self.w_q, self.d, h)
    }

    /// Whether the surprise gate lets a vector into the fine slots.
    pub open spec fn is_written(&self, h: Seq<A::T>) -> bool {
        s_exceeds::<A>(
            gate_of::<A>(self.surprise_of(h), self.surprise_threshold),
            s_lit::<A>(5, 1),
        )
    }

    /// The fine slot that is written next.
    pub open spec fn next_slot(&self) -> int {
        self.write_ptr as int % self.k_fine as int
    }

    /// W_eff * attn_vals + h
    pub open spec fn output_of(&self, attn: Seq<A::T>, h: Seq<A::T>) -> Seq<A::T> {
        let projected = matvec_of::<A>(self.w_o, self.d, attn);
        let adapted = if self.fw_active {
            add_scaled::<A>(projected, self.fw_u, dot_of::<A>(self.fw_v, attn))
        } else {
            projected
        };
        add_scaled::<A>(adapted, h, one::<A>())
    }

    /// What is read for a query.
    pub open spec fn read_of(&self, q: Seq<A::T>) -> Seq<A::T> {
        let probs = softmax_of::<A>(
            bank_scores::<A>(q, self.fine_keys, self.k_fine) + bank_scores::<A>(
                q,
                self.coarse_keys,
                self.k_coarse,
            ),
        );
        let fine = bank_read::<A>(
            zeros::<A>(self.d),
            self.fine_vals,
            probs.take(self.k_fine as int),
            self.k_fine,
        );
        bank_read::<A>(fine, self.coarse_vals, probs.skip(self.k_fine as int), self.k_coarse)
    }

    /// The diagnostics after a token.
    pub open spec fn counted(&self, h: Seq<A::T>, record_gate: bool) -> MrmValues<A> {
        let surprise = self.surprise_of(h);
        MrmValues {
            total_tokens: self.total_tokens + 1,
            total_writes: self.total_writes + (if self.is_written(h) {
                1int
            } else {
                0
            }),
            gate_records: if record_gate {
                self.gate_records.push(
                    GateRecord {
                        surprise_magnitude: surprise,
                        gate_value: gate_of::<A>(surprise, self.surprise_threshold),
                        written: self.is_written(h),
                    },
                )
            } else {
                self.gate_records
            },
            ..*self
        }
    }

    /// A key and a value in the next fine slot.
    pub open spec fn fine_written(&self, key: Seq<A::T>, val: Seq<A::T>) -> MrmValues<A> {
        MrmValues {
            fine_keys: with_row(self.fine_keys, self.d, self.next_slot(), key),
            fine_vals: with_row(self.fine_vals, self.d, self.next_slot(), val),
            write_ptr: advanced(self.write_ptr),
            ..*self
        }
    }

    /// The coarse slot nearest to a key, moved towards the key and a value.
    pub open spec fn coarse_blended(&self, key: Seq<A::T>, val: Seq<A::T>) -> MrmValues<A> {
        let slot = nearest_of::<A>(self.coarse_keys, self.d, key, self.k_coarse).0;
        MrmValues {
            coarse_keys: with_row(
                self.coarse_keys,
                self.d,
                slot,
                averaged::<A>(self.coarse_decay, row_of(self.coarse_keys, self.d, slot), key),
            ),
            coarse_vals: with_row(
                self.coarse_vals,
                self.d,
                slot,
                averaged::<A>(self.coarse_decay, row_of(self.coarse_vals, self.d, slot), val),
            ),
            ..*self
        }
    }

    /// The memory after a token.
    pub open spec fn next(&self, h: Seq<A::T>, record_gate: bool) -> MrmValues<A> {
        let (key, val) = (self.key_of(h), self.value_of(h));
        let seen = MrmValues {
            mean_h: averaged::<A>(self.mean_decay, self.mean_h, h),
            ..self.counted(h, record_gate)
        };
        let gated = if self.is_written(h) {
            seen.fine_written(key, val)
        } else {
            seen
        };
        gated.coarse_blended(key, val)
    }

    /// What comes out for a token: it is read from the memory after the token.
    pub open spec fn out_of(&self, h: Seq<A::T>) -> Seq<A::T> {
        let after = self.next(h, false);
        after.output_of(after.read_of(self.query_of(h)), h)
    }

    /// The memory takes a token: there are slots to write to, and the counters do not overflow.
    pub open spec fn accepts(&self, h: Seq<A::T>) -> bool {
        &&& self.wf()
        &&& h.len() == self.d
        &&& self.is_written(h) ==> self.k_fine > 0
        &&& self.k_coarse > 0 || self.d == 0
        &&& self.k_fine + self.k_coarse <= usize::MAX
        &&& self.total_tokens < usize::MAX
        &&& self.is_written(h) ==> self.total_writes < usize::MAX
    }
}

impl<A: Arith> MultiResMemory<A> {
    /// All parts are as large as the dimension and the numbers of slots say.
    pub open spec fn wf(&self) -> bool {
        self@.wf()
    }

    /// The projections are those that the generator of the seed draws, one after another, each
    /// on the scale of what it is applied to.
    pub open spec fn is_drawn(&self, seed: u64) -> bool {
        let scale = weight_scale::<A>(2, self.d);
        drawn_from_seed::<A>(
            seed,
            seq![
                WeightDraw { weights: self.w_k@, scale },
                WeightDraw { weights: self.w_v@, scale },
                WeightDraw { weights: self.w_q@, scale },
                WeightDraw { weights: self.w_o@, scale },
            ],
        )
    }

    /// An empty memory of the given size, with the usual threshold and decays.
    pub open spec fn is_new(&self, d: usize, k_fine: usize, k_coarse: usize) -> bool {
        &&& self.wf()
        &&& self.d == d
        &&& self.k_fine == k_fine
        &&& self.k_coarse == k_coarse
        &&& self.fine_keys@ == zeros::<A>((k_fine * d) as nat)
        &&& self.fine_vals@ == zeros::<A>((k_fine * d) as nat)
        &&& self.coarse_keys@ == zeros::<A>((k_coarse * d) as nat)
        &&& self.coarse_vals@ == zeros::<A>((k_coarse * d) as nat)
        &&& self.write_ptr == 0
        &&& self.surprise_threshold == s_lit::<A>(3, 1)
        &&& self.coarse_decay == s_lit::<A>(99, 2)
        &&& self.mean_decay == s_lit::<A>(98, 2)
        &&& self.fw_u@ == zeros::<A>(d as nat)
        &&& self.fw_v@ == zeros::<A>(d as nat)
        &&& !self.fw_active
        &&& self.mean_h@ == zeros::<A>(d as nat)
        &&& self.stats.total_tokens == 0
        &&& self.stats.total_writes == 0
        &&& self.stats.gate_records@.len() == 0
        &&& self.stats.recall_results@.len() == 0
    }

    /// An empty memory with projections drawn from the generator of a seed.
    pub fn new(d: usize, k_fine: usize, k_coarse: usize, seed: u64) -> (mrm: Self)
        requires
            lawful::<A>(),
            k_fine * d <= usize::MAX,
            k_coarse * d <= usize::MAX,
            d * d <= usize::MAX,
        ensures
            mrm.is_new(d, k_fine, k_coarse),
            mrm.is_drawn(seed),
    {
        let mut source = WeightSource::<A>::new(seed);
        let scale = scale_for::<A>(2, d);
        let w_k = source.draw(scale, d * d);
        let w_v = source.draw(scale, d * d);
        let w_q = source.draw(scale, d * d);
        let w_o = source.draw(scale, d * d);
        proof {
            source.lemma_drawn(seed);
            assert(source.parts() =~= seq![
                WeightDraw { weights: w_k@, scale },
                WeightDraw { weights: w_v@, scale },
                WeightDraw { weights: w_q@, scale },
                WeightDraw { weights: w_o@, scale },
            ]);
        }
        Self {
            d,
            k_fine,
            k_coarse,
            fine_keys: zero_vec::<A>(k_fine * d),
            fine_vals: zero_vec::<A>(k_fine * d),
            coarse_keys: zero_vec::<A>(k_coarse * d),
            coarse_vals: zero_vec::<A>(k_coarse * d),
            write_ptr: 0,
            surprise_threshold: A::lit(3, 1),
            coarse_decay: A::lit(99, 2),
            w_k,
            w_v,
            w_q,
            w_o,
            fw_u: zero_vec::<A>(d),
            fw_v: zero_vec::<A>(d),
            fw_active: false,
            stats: MrmStats::default(),
            mean_h: zero_vec::<A>(d),
            mean_decay: A::lit(98, 2),
        }
    }

    /// Compute surprise magnitude: L2 distance between h and running EMA mean.
    pub fn surprise(&self, h: &[A::T]) -> (r: A::T)
        requires
            lawful::<A>(),
            self.wf(),
            h@.len() >= self.d,
        ensures
            r == self@.surprise_of(h@),
    {
        let mut sq = A::lit(0, 0);
        let mut i: usize = 0;
        while i < self.d
            invariant
                lawful::<A>(),
                self.wf(),
                h@.len() >= self.d,
                i <= self.d,
                sq == squared_distance::<A>(h@, self.mean_h@, i as nat),
            decreases self.d - i,
        {
            let diff = A::minus(h[i], self.mean_h[i]);
            sq = A::plus(sq, A::times(diff, diff));
            i += 1;
        }
        A::sqrt(sq)
    }

    /// Update running EMA mean of h.
    fn update_mean(&mut self, h: &[A::T])
        requires
            lawful::<A>(),
            old(self).wf(),
            h@.len() == old(self).d,
        ensures
            final(self)@ == (MrmValues {
                mean_h: averaged::<A>(old(self)@.mean_decay, old(self)@.mean_h, h@),
                ..old(self)@
            }),
            final(self).wf(),
    {
        average_into::<A>(self.mean_decay, self.mean_h.as_mut_slice(), h);
    }

    /// Full MRM forward: read + gated write. Writes the output vector (d).
    /// record_gate: if true, appends to stats.gate_records (for E3).
    pub fn forward(&mut self, h: &[A::T], output: &mut [A::T], record_gate: bool)
        requires
            lawful::<A>(),
            old(self)@.accepts(h@),
            old(output)@.len() == old(self).d,
        ensures
            final(self)@ == old(self)@.next(h@, record_gate),
            final(output)@ == old(self)@.out_of(h@),
            final(self).wf(),
            final(output)@.len() == old(self).d,
    {
        let d: usize = self.d;
        let ghost m0 = self@;
        // 1. Project query
        let q = mul_vec::<A>(self.w_q.as_slice(), d, h);
        // 2. Project key and value for new token
        let new_k = mul_vec::<A>(self.w_k.as_slice(), d, h);
        let new_v = mul_vec::<A>(self.w_v.as_slice(), d, h);
        // 3. Surprise gate: g = sigmoid((surp - threshold) * 10)
        let surp = self.surprise(h);
        let gate = A::over(
            A::lit(1, 0),
            A::plus(
                A::lit(1, 0),
                A::exp(
                    A::times(A::negate(A::minus(surp, self.surprise_threshold)), A::lit(10, 0)),
                ),
            ),
        );
        let written: bool = A::exceeds(gate, A::lit(5, 1));
        if record_gate {
            self.stats.gate_records.push(
                GateRecord { surprise_magnitude: surp, gate_value: gate, written },
            );
        }
        self.stats.total_tokens = self.stats.total_tokens + 1;
        if written {
            self.stats.total_writes = self.stats.total_writes + 1;
        }
        assert(self@ == m0.counted(h@, record_gate));
        self.update_mean(h);
        // 4. Write to fine slots (ring buffer, gated)
        if written {
            self.write_fine(new_k.as_slice(), new_v.as_slice());
        }
        // 5. EMA update of the coarse slot with the highest similarity to new_k
        self.blend_coarse(new_k.as_slice(), new_v.as_slice());
        assert(self@ == m0.next(h@, record_gate));
        // 6. Read: attention over fine + coarse
        let attn_vals = self.read(q.as_slice());
        // 7. Output projection + residual
        self.project_out(attn_vals.as_slice(), h, output);
        proof {
            let after = m0.next(h@, false);
            assert(self@.read_of(q@) == after.read_of(q@));
            assert(self@.output_of(attn_vals@, h@) == after.output_of(attn_vals@, h@));
        }
    }

    /// Write a key and a value to the next fine slot.
    fn write_fine(&mut self, key: &[A::T], val: &[A::T])
        requires
            old(self).wf(),
            old(self).k_fine > 0,
            key@.len() == old(self).d,
            val@.len() == old(self).d,
        ensures
            final(self)@ == old(self)@.fine_written(key@, val@),
            final(self).wf(),
    {
        let ptr: usize = self.write_ptr % self.k_fine;
        let ghost rows = self.k_fine as nat;
        write_row(self.fine_keys.as_mut_slice(), Ghost(rows), self.d, ptr, key);
        write_row(self.fine_vals.as_mut_slice(), Ghost(rows), self.d, ptr, val);
        self.write_ptr = self.write_ptr.wrapping_add(1);
    }

    /// The coarse slot with the highest similarity to a key.
    pub(crate) fn nearest_coarse(&self, key: &[A::T]) -> (best: usize)
        requires
            lawful::<A>(),
            self.wf(),
            key@.len() == self.d,
        ensures
            best == nearest_of::<A>(self@.coarse_keys, self@.d, key@, self@.k_coarse).0,
            self.k_coarse > 0 ==> best < self.k_coarse,
            self.k_coarse == 0 ==> best == 0,
    {
        let mut best_c: usize = 0;
        let mut best_s = A::neg_inf();
        let mut s: usize = 0;
        while s < self.k_coarse
            invariant
                lawful::<A>(),
                self.wf(),
                key@.len() == self.d,
                s <= self.k_coarse,
                best_c == 0 || best_c < s,
                best_c == nearest_of::<A>(self.coarse_keys@, self.d as nat, key@, s as nat).0,
                best_s == nearest_of::<A>(self.coarse_keys@, self.d as nat, key@, s as nat).1,
            decreases self.k_coarse - s,
        {
            proof {
                lemma_row_bounds(self.k_coarse as nat, self.d as nat, s as int);
            }
            let sim = dot::<A>(key, row_at(self.coarse_keys.as_slice(), self.d, s));
            if A::exceeds(sim, best_s) {
                best_s = sim;
                best_c = s;
            }
            s += 1;
        }
        best_c
    }

    /// Move the coarse slot nearest to a key towards the key and a value.
    fn blend_coarse(&mut self, key: &[A::T], val: &[A::T])
        requires
            lawful::<A>(),
            old(self).wf(),
            old(self).k_coarse > 0 || old(self).d == 0,
            key@.len() == old(self).d,
            val@.len() == old(self).d,
        ensures
            final(self)@ == old(self)@.coarse_blended(key@, val@),
            final(self).wf(),
    {
        let slot: usize = self.nearest_coarse(key);
        average_row::<A>(
            self.coarse_keys.as_mut_slice(),
            Ghost(self.k_coarse as nat),
            slot,
            self.coarse_decay,
            key,
        );
        average_row::<A>(
            self.coarse_vals.as_mut_slice(),
            Ghost(self.k_coarse as nat),
            slot,
            self.coarse_decay,
            val,
        );
    }

    /// Attention over fine and coarse slots for a query.
    fn read(&self, q: &[A::T]) -> (attn_vals: Vec<A::T>)
        requires
            lawful::<A>(),
            self.wf(),
            q@.len() == self.d,
            self.k_fine + self.k_coarse <= usize::MAX,
        ensures
            attn_vals@ == self@.read_of(q@),
            attn_vals@.len() == self.d,
    {
        let mut scores: Vec<A::T> = Vec::with_capacity(self.k_fine + self.k_coarse);
        push_scores::<A>(&mut scores, q, self.fine_keys.as_slice(), self.k_fine);
        push_scores::<A>(&mut scores, q, self.coarse_keys.as_slice(), self.k_coarse);
        let ghost want = bank_scores::<A>(q@, self.fine_keys@, self.k_fine as nat) + bank_scores::<
            A,
        >(q@, self.coarse_keys@, self.k_coarse as nat);
        assert(scores@ =~= want);
        let mut probs = zero_vec::<A>(scores.len());
        softmax::<A>(scores.as_slice(), probs.as_mut_slice());
        assert(probs@.len() == self.k_fine + self.k_coarse);
        let fine_probs = vstd::slice::slice_subrange(probs.as_slice(), 0, self.k_fine);
        let coarse_probs = vstd::slice::slice_subrange(probs.as_slice(), self.k_fine, probs.len());
        assert(fine_probs@ =~= probs@.take(self.k_fine as int));
        assert(coarse_probs@ =~= probs@.skip(self.k_fine as int));
        // Weighted value read
        let mut attn_vals = zero_vec::<A>(self.d);
        read_bank::<A>(
            attn_vals.as_mut_slice(),
            self.fine_vals.as_slice(),
            fine_probs,
            self.k_fine,
        );
        read_bank::<A>(
            attn_vals.as_mut_slice(),
            self.coarse_vals.as_slice(),
            coarse_probs,
            self.k_coarse,
        );
        attn_vals
    }

    /// output = W_eff * attn_vals + h, where W_eff = W_o + fw_u * fw_v^T if fast weights are
    /// active.
    fn project_out(&self, attn_vals: &[A::T], h: &[A::T], output: &mut [A::T])
        requires
            lawful::<A>(),
            self.wf(),
            attn_vals@.len() == self.d,
            h@.len() == self.d,
            old(output)@.len() == self.d,
        ensures
            final(output)@ == self@.output_of(attn_vals@, h@),
            final(output)@.len() == self.d,
    {
        let wo = MatrixView::new(self.w_o.as_slice(), self.d, self.d);
        matvec::<A>(&wo, attn_vals, output);
        if self.fw_active {
            // Apply rank-1 delta: output += (fw_v . attn_vals) * fw_u
            let scale = dot::<A>(self.fw_v.as_slice(), attn_vals);
            vec_add_scaled::<A>(output, self.fw_u.as_slice(), scale);
        }
        vec_add_scaled::<A>(output, h, A::lit(1, 0));
    }

    /// Rank-1 fast-weight update (test-time, zero gradient steps).
    /// Computes u, v from (key_example, val_example) and stores as rank-1 delta.
    /// u = W_o * val_example  (direction to add)
    /// v = key_example        (condition key)
    pub fn fast_weight_update(&mut self, key_example: &[A::T], val_example: &[A::T])
        requires
            lawful::<A>(),
            old(self).wf(),
            key_example@.len() == old(self).d,
            val_example@.len() == old(self).d,
        ensures
            final(self)@ == (MrmValues {
                fw_u: matvec_of::<A>(old(self)@.w_o, old(self)@.d, val_example@),
                fw_v: key_example@,
                fw_active: true,
                ..old(self)@
            }),
            final(self).wf(),
    {
        // u = W_o * val_example
        self.fw_u = mul_vec::<A>(self.w_o.as_slice(), self.d, val_example);
        vec_copy(self.fw_v.as_mut_slice(), key_example);
        self.fw_active = true;
    }

    pub fn reset_fast_weights(&mut self)
        requires
            lawful::<A>(),
        ensures
            final(self)@ == (MrmValues {
                fw_u: zeros::<A>(old(self)@.fw_u.len()),
                fw_v: zeros::<A>(old(self)@.fw_v.len()),
                fw_active: false,
                ..old(self)@
            }),
            old(self).wf() ==> final(self).wf(),
    {
        vec_zero::<A>(self.fw_u.as_mut_slice());
        vec_zero::<A>(self.fw_v.as_mut_slice());
        self.fw_active = false;
    }

    /// Write a specific key/value pair directly (for recall experiments).
    pub fn force_write(&mut self, key: &[A::T], val: &[A::T])
        requires
            lawful::<A>(),
            old(self).wf(),
            old(self).k_fine > 0,
            key@.len() == old(self).d,
            val@.len() == old(self).d,
            old(self).stats.total_tokens < usize::MAX,
            old(self).stats.total_writes < usize::MAX,
        ensures
            final(self)@ == (MrmValues {
                total_tokens: old(self)@.total_tokens + 1,
                total_writes: old(self)@.total_writes + 1,
                ..old(self)@.fine_written(old(self)@.key_of(key@), old(self)@.value_of(val@))
            }),
            final(self).wf(),
    {
        let pk = mul_vec::<A>(self.w_k.as_slice(), self.d, key);
        let pv = mul_vec::<A>(self.w_v.as_slice(), self.d, val);
        self.write_fine(pk.as_slice(), pv.as_slice());
        self.stats.total_tokens = self.stats.total_tokens + 1;
        self.stats.total_writes = self.stats.total_writes + 1;
    }

    /// Recall: retrieve the nearest value for a query h. Returns cosine sim to best slot.
    pub fn recall(&self, query_h: &[A::T]) -> (r: (Vec<A::T>, A::T))
        requires
            lawful::<A>(),
            self.wf(),
            query_h@.len() == self.d,
        ensures
            ({
                let best = recalled::<A>(
                    self@.query_of(query_h@),
                    self@.fine_keys,
                    self@.fine_vals,
                    self@.k_fine,
                );
                &&& r.0@ == add_scaled::<A>(
                    matvec_of::<A>(self.w_o@, self.d as nat, best.0),
                    query_h@,
                    one::<A>(),
                )
                &&& r.1 == best.1
            }),
            r.0@.len() == self.d,
    {
        let d: usize = self.d;
        let q = mul_vec::<A>(self.w_q.as_slice(), d, query_h);
        let floor = A::lit(1, 6);
        let mut best_sim = A::neg_inf();
        let mut best_v = zero_vec::<A>(d);
        let mut s: usize = 0;
        while s < self.k_fine
            invariant
                lawful::<A>(),
                self.wf(),
                d == self.d,
                q@.len() == d,
                floor == s_lit::<A>(1, 6),
                s <= self.k_fine,
                best_v@.len() == d,
                best_v@ == recalled::<A>(q@, self.fine_keys@, self.fine_vals@, s as nat).0,
                best_sim == recalled::<A>(q@, self.fine_keys@, self.fine_vals@, s as nat).1,
            decreases self.k_fine - s,
        {
            proof {
                lemma_row_bounds(self.k_fine as nat, d as nat, s as int);
            }
            let fk = row_at(self.fine_keys.as_slice(), d, s);
            let norm_sq = add_up_squares::<A>(fk);
            if !A::exceeds(floor, norm_sq) {
                let norms = A::times(
                    A::larger(A::sqrt(norm_sq), floor),
                    A::larger(A::sqrt(dot::<A>(q.as_slice(), q.as_slice())), floor),
                );
                let sim = A::over(dot::<A>(q.as_slice(), fk), norms);
                if A::exceeds(sim, best_sim) {
                    best_sim = sim;
                    best_v = copied(row_at(self.fine_vals.as_slice(), d, s));
                }
            }
            s += 1;
        }
        let mut out = mul_vec::<A>(self.w_o.as_slice(), d, best_v.as_slice());
        vec_add_scaled::<A>(out.as_mut_slice(), query_h, A::lit(1, 0));
        (out, best_sim)
    }

    /// Number of parameters: w_k, w_v, w_q, w_o.
    pub fn param_count(&self) -> (n: usize)
        requires
            4 * self.d * self.d <= usize::MAX,
        ensures
            n == 4 * self.d * self.d,
    {
        proof {
            let d = self.d as int;
            assert(4 * d <= 4 * d * d || d == 0) by (nonlinear_arith)
                requires
                    d >= 0,
            ;
        }
        4 * self.d * self.d
    }
}

/// The write pointer after a write; it wraps around at the end of its range.
pub open spec fn advanced(ptr: usize) -> usize {
    if ptr == usize::MAX {
        0
    } else {
        (ptr + 1) as usize
    }
}

/// Replace a vector by its exponential moving average with `new_v`.
fn average_into<A: Arith>(decay: A::T, dst: &mut [A::T], new_v: &[A::T])
    requires
        lawful::<A>(),
        old(dst)@.len() == new_v@.len(),
    ensures
        final(dst)@ == averaged::<A>(decay, old(dst)@, new_v@),
{
    let n: usize = dst.len();
    let ghost d0 = dst@;
    let alpha = A::minus(A::lit(1, 0), decay);
    let mut i: usize = 0;
    while i < n
        invariant
            lawful::<A>(),
            i <= n,
            dst@.len() == n,
            new_v@.len() == n,
            d0.len() == n,
            alpha == s_minus::<A>(one::<A>(), decay),
            forall|j: int|
                0 <= j < i ==> #[trigger] dst@[j] == averaged::<A>(decay, d0, new_v@)[j],
            forall|j: int| i <= j < n ==> #[trigger] dst@[j] == d0[j],
        decreases n - i,
    {
        dst[i] = A::plus(A::times(decay, dst[i]), A::times(alpha, new_v[i]));
        i += 1;
    }
    assert(dst@ =~= averaged::<A>(decay, d0, new_v@));
}

/// Replace a row by its exponential moving average with `new_v`.
fn average_row<A: Arith>(
    data: &mut [A::T],
    Ghost(rows): Ghost<nat>,
    r: usize,
    decay: A::T,
    new_v: &[A::T],
)
    requires
        lawful::<A>(),
        old(data)@.len() == rows * new_v@.len(),
        r < rows || new_v@.len() == 0 && r == 0,
    ensures
        final(data)@ == with_row(
            old(data)@,
            new_v@.len(),
            r as int,
            averaged::<A>(decay, row_of(old(data)@, new_v@.len(), r as int), new_v@),
        ),
        final(data)@.len() == old(data)@.len(),
{
    let d: usize = new_v.len();
    proof {
        if r < rows {
            lemma_row_bounds(rows, d as nat, r as int);
        } else {
            assert(rows * d == 0) by (nonlinear_arith)
                requires
                    d == 0,
            ;
        }
        assert(data.len() == data@.len());
    }
    let start: usize = r * d;
    average_into::<A>(decay, crate::tensor::part_mut(data, start, d), new_v);
}

/// Append the scores of the slots of a bank.
pub(crate) fn push_scores<A: Arith>(scores: &mut Vec<A::T>, q: &[A::T], keys: &[A::T], k: usize)
    requires
        lawful::<A>(),
        keys@.len() == k * q@.len(),
    ensures
        final(scores)@ == old(scores)@ + bank_scores::<A>(q@, keys@, k as nat),
{
    let d: usize = q.len();
    let ghost before = scores@;
    let ghost want = bank_scores::<A>(q@, keys@, k as nat);
    let mut s: usize = 0;
    while s < k
        invariant
            lawful::<A>(),
            s <= k,
            d == q@.len(),
            keys@.len() == k * d,
            want == bank_scores::<A>(q@, keys@, k as nat),
            scores@ == before + want.take(s as int),
        decreases k - s,
    {
        proof {
            lemma_row_bounds(k as nat, d as nat, s as int);
        }
        let key = row_at(keys, d, s);
        // Only attend to written slots (non-zero norm)
        let norm_sq = add_up_squares::<A>(key);
        if A::exceeds(norm_sq, A::lit(1, 6)) {
            scores.push(dot::<A>(q, key));
        } else {
            scores.push(A::neg_inf());
        }
        s += 1;
        assert(scores@ =~= before + want.take(s as int));
    }
    assert(want.take(k as int) =~= want);
}

/// Add the values of the slots of a bank, each with its share of the attention.
pub(crate) fn read_bank<A: Arith>(attn: &mut [A::T], vals: &[A::T], probs: &[A::T], k: usize)
    requires
        lawful::<A>(),
        vals@.len() == k * old(attn)@.len(),
        probs@.len() == k,
    ensures
        final(attn)@ == bank_read::<A>(old(attn)@, vals@, probs@, k as nat),
        final(attn)@.len() == old(attn)@.len(),
{
    let d: usize = attn.len();
    let ghost start = attn@;
    let mut s: usize = 0;
    while s < k
        invariant
            lawful::<A>(),
            s <= k,
            d == start.len(),
            attn@.len() == d,
            vals@.len() == k * d,
            probs@.len() == k,
            attn@ == bank_read::<A>(start, vals@, probs@, s as nat),
        decreases k - s,
    {
        proof {
            lemma_row_bounds(k as nat, d as nat, s as int);
        }
        let w = probs[s];
        if A::exceeds(w, A::lit(1, 6)) {
            vec_add_scaled::<A>(attn, row_at(vals, d, s), w);
        }
        s += 1;
    }
}

/// A bank of `k` slots after the first `n` of a series of writes, the first of them to slot 0.
pub open spec fn ring_after<T>(
    start: Seq<T>,
    d: nat,
    k: nat,
    writes: Seq<Seq<T>>,
    n: nat,
) -> Seq<T>
    decreases n,
{
    if n == 0 {
        start
    } else {
        with_row(
            ring_after(start, d, k, writes, (n - 1) as nat),
            d,
            (n - 1) % (k as int),
            writes[n - 1],
        )
    }
}

/// The fine slots hold the latest writes: after any number of writes, each of the last `k` of
/// them stands in its slot, and the bank is as large as before.
pub proof fn fine_slots_hold_the_latest_writes<T>(
    start: Seq<T>,
    d: nat,
    k: nat,
    writes: Seq<Seq<T>>,
    n: nat,
)
    requires
        k > 0,
        start.len() == k * d,
        n <= writes.len(),
        forall|i: int| 0 <= i < writes.len() ==> (#[trigger] writes[i]).len() == d,
    ensures
        ring_after(start, d, k, writes, n).len() == start.len(),
        forall|i: int|
            0 <= i < n && n - k <= i ==> row_of(
                ring_after(start, d, k, writes, n),
                d,
                i % (k as int),
            ) == #[trigger] writes[i],
    decreases n,
{
    if n > 0 {
        fine_slots_hold_the_latest_writes(start, d, k, writes, (n - 1) as nat);
        let before = ring_after(start, d, k, writes, (n - 1) as nat);
        let slot = (n - 1) % (k as int);
        lemma_with_row(before, k, d, slot, writes[n - 1]);
        assert forall|i: int| 0 <= i < n && n - k <= i implies row_of(
            ring_after(start, d, k, writes, n),
            d,
            i % (k as int),
        ) == #[trigger] writes[i] by {
            if i < n - 1 {
                assert(i % (k as int) != slot) by {
                    vstd::arithmetic::div_mod::lemma_fundamental_div_mod(i, k as int);
                    vstd::arithmetic::div_mod::lemma_fundamental_div_mod(n - 1, k as int);
                    let (a, b) = (i / (k as int), (n - 1) / (k as int));
                    assert(i % (k as int) != slot) by (nonlinear_arith)
                        requires
                            i == k * a + i % (k as int),
                            n - 1 == k * b + (n - 1) % (k as int),
                            slot == (n - 1) % (k as int),
                            0 < n - 1 - i < k,
                            k > 0,
                    ;
                }
            }
        }
    }
}

/// The surprise gate guards the fine slots: a token that it does not let in leaves them and the
/// write pointer as they were, and one that it lets in stands in the next slot and leaves the
/// others as they were.
pub proof fn surprise_gate_guards_the_fine_slots<A: Arith>(
    m: MrmValues<A>,
    h: Seq<A::T>,
    record_gate: bool,
)
    requires
        m.accepts(h),
    ensures
        ({
            let next = m.next(h, record_gate);
            &&& !m.is_written(h) ==> next.fine_keys == m.fine_keys && next.fine_vals == m.fine_vals
                && next.write_ptr == m.write_ptr
            &&& m.is_written(h) ==> row_of(next.fine_keys, m.d, m.next_slot()) == m.key_of(h)
                && row_of(next.fine_vals, m.d, m.next_slot()) == m.value_of(h) && next.write_ptr
                == advanced(m.write_ptr)
            &&& forall|s: int|
                0 <= s < m.k_fine && s != m.next_slot() ==> #[trigger] row_of(
                    next.fine_keys,
                    m.d,
                    s,
                ) == row_of(m.fine_keys, m.d, s)
            &&& forall|s: int|
                0 <= s < m.k_fine && s != m.next_slot() ==> #[trigger] row_of(
                    next.fine_vals,
                    m.d,
                    s,
                ) == row_of(m.fine_vals, m.d, s)
        }),
{
    if m.is_written(h) {
        lemma_with_row(m.fine_keys, m.k_fine, m.d, m.next_slot(), m.key_of(h));
        lemma_with_row(m.fine_vals, m.k_fine, m.d, m.next_slot(), m.value_of(h));
    }
}

/// The memory has a fixed size: a token changes neither the dimension nor the number of slots,
/// nor the length of any store, whatever was streamed before.
pub proof fn memory_keeps_its_size<A: Arith>(m: MrmValues<A>, h: Seq<A::T>, record_gate: bool)
    requires
        m.accepts(h),
    ensures
        ({
            let next = m.next(h, record_gate);
            &&& next.wf()
            &&& next.d == m.d
            &&& next.k_fine == m.k_fine
            &&& next.k_coarse == m.k_coarse
            &&& next.fine_keys.len() == m.fine_keys.len()
            &&& next.fine_vals.len() == m.fine_vals.len()
            &&& next.coarse_keys.len() == m.coarse_keys.len()
            &&& next.coarse_vals.len() == m.coarse_vals.len()
        }),
{
    let (key, val) = (m.key_of(h), m.value_of(h));
    if m.is_written(h) {
        lemma_with_row(m.fine_keys, m.k_fine, m.d, m.next_slot(), key);
        lemma_with_row(m.fine_vals, m.k_fine, m.d, m.next_slot(), val);
    }
    let slot = nearest_of::<A>(m.coarse_keys, m.d, key, m.k_coarse).0;
    lemma_nearest::<A>(m.coarse_keys, m.d, key, m.k_coarse);
    let new_key = averaged::<A>(m.coarse_decay, row_of(m.coarse_keys, m.d, slot), key);
    let new_val = averaged::<A>(m.coarse_decay, row_of(m.coarse_vals, m.d, slot), val);
    if m.k_coarse > 0 {
        lemma_row_bounds(m.k_coarse, m.d, slot);
        lemma_with_row(m.coarse_keys, m.k_coarse, m.d, slot, new_key);
        lemma_with_row(m.coarse_vals, m.k_coarse, m.d, slot, new_val);
    } else {
        assert(m.k_coarse * m.d == 0);
        assert(slot * m.d == 0);
    }
}

/// The nearest slot is one of the slots, or the first where there are none.
pub(crate) proof fn lemma_nearest<A: Arith>(keys: Seq<A::T>, d: nat, key: Seq<A::T>, n: nat)
    ensures
        0 <= nearest_of::<A>(keys, d, key, n).0,
        n > 0 ==> nearest_of::<A>(keys, d, key, n).0 < n,
        n == 0 ==> nearest_of::<A>(keys, d, key, n).0 == 0,
    decreases n,
{
    if n > 0 {
        lemma_nearest::<A>(keys, d, key, (n - 1) as nat);
    }
}

} // verus!
