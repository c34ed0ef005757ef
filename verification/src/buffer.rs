//! Circular token copy buffer and single-query buffer attention kernels.

use vstd::prelude::*;
use crate::arith::{
    Arith, lawful, one, s_count, s_minus, s_neg_inf, s_over, s_plus, s_sqrt, s_times,
};
use crate::softmax::{softmax, softmax_of};
use crate::tensor::{dot, dot_of, lemma_row_bounds, part_mut, row_of, scaled, vec_scale};

verus! {

/// Fixed-capacity circular ring buffer for storing recent or surprising tokens.
/// Pushing and clearing allocate nothing: the tokens lie in what `new` has set aside.
///
/// Its view is the sequence of tokens that it holds, oldest first.
#[derive(Debug, Clone)]
pub struct CircularTokenBuffer {
    capacity: usize,
    head: usize,
    len: usize,
    buffer: Vec<u32>,
}

/// What a buffer of capacity `capacity` that holds `tokens` holds after `token` is pushed:
/// the oldest token makes room where the buffer is full.
pub open spec fn pushed(tokens: Seq<u32>, capacity: nat, token: u32) -> Seq<u32> {
    if tokens.len() < capacity {
        tokens.push(token)
    } else {
        tokens.drop_first().push(token)
    }
}

/// What an empty buffer of capacity `capacity` holds after all of `tokens` are pushed in order.
pub open spec fn pushed_all(capacity: nat, tokens: Seq<u32>) -> Seq<u32>
    decreases tokens.len(),
{
    if tokens.len() == 0 {
        Seq::empty()
    } else {
        pushed(pushed_all(capacity, tokens.drop_last()), capacity, tokens.last())
    }
}

/// A buffer holds the latest tokens: after any number of pushes it holds exactly the last
/// `capacity` of them, or all of them while there are fewer, in the order of the pushes.
pub proof fn holds_the_latest_tokens(capacity: nat, tokens: Seq<u32>)
    requires
        capacity > 0,
    ensures
        tokens.len() <= capacity ==> pushed_all(capacity, tokens) == tokens,
        tokens.len() > capacity ==> pushed_all(capacity, tokens) == tokens.subrange(
            tokens.len() - capacity,
            tokens.len() as int,
        ),
    decreases tokens.len(),
{
    if tokens.len() > 0 {
        let before = tokens.drop_last();
        holds_the_latest_tokens(capacity, before);
        assert(before.push(tokens.last()) =~= tokens);
        if tokens.len() > capacity {
            let kept = pushed_all(capacity, before);
            assert(kept.drop_first().push(tokens.last()) =~= tokens.subrange(
                tokens.len() - capacity,
                tokens.len() as int,
            ));
        }
    }
}

/// How the tokens of a buffer lie in memory: the slots in use, and which of them holds the oldest
/// token.
#[verifier::ext_equal]
pub struct Ring {
    pub slots: Seq<u32>,
    pub oldest: int,
}

impl Ring {
    /// No slot is in use.
    pub open spec fn empty() -> Ring {
        Ring { slots: Seq::empty(), oldest: 0 }
    }

    /// The slots after a push into a buffer of capacity `capacity`: a new one while there is room,
    /// and that of the oldest token otherwise.
    pub open spec fn pushed(self, capacity: nat, token: u32) -> Ring {
        if self.slots.len() < capacity {
            Ring { slots: self.slots.push(token), oldest: 0 }
        } else {
            Ring {
                slots: self.slots.update(self.oldest, token),
                oldest: (self.oldest + 1) % (capacity as int),
            }
        }
    }
}

/// The slots of an empty buffer of capacity `capacity` after all of `tokens` are pushed in order.
pub open spec fn ring_after(capacity: nat, tokens: Seq<u32>) -> Ring
    decreases tokens.len(),
{
    if tokens.len() == 0 {
        Ring::empty()
    } else {
        ring_after(capacity, tokens.drop_last()).pushed(capacity, tokens.last())
    }
}

/// Pushes land in turn: the `k`th token lies in slot `k % capacity` until a later one lands there,
/// so that the slots are the latest tokens, rotated.
pub proof fn pushes_land_in_turn(capacity: nat, tokens: Seq<u32>)
    requires
        capacity > 0,
    ensures
        ({
            let ring = ring_after(capacity, tokens);
            let n = tokens.len();
            &&& ring.slots.len() == if n < capacity {
                n
            } else {
                capacity
            }
            &&& ring.oldest == if n < capacity {
                0
            } else {
                n as int % capacity as int
            }
            &&& forall|k: int|
                n - ring.slots.len() <= k < n ==> ring.slots[k % (capacity as int)]
                    == #[trigger] tokens[k]
        }),
    decreases tokens.len(),
{
    let c = capacity as int;
    let n = tokens.len();
    if n > 0 {
        let front = tokens.drop_last();
        pushes_land_in_turn(capacity, front);
        let ring = ring_after(capacity, tokens);
        let m = n - 1;
        if n <= capacity {
            assert forall|k: int| 0 <= k < n implies ring.slots[k % c] == #[trigger] tokens[k] by {
                vstd::arithmetic::div_mod::lemma_small_mod(k as nat, capacity);
                if k < m {
                    assert(tokens[k] == front[k]);
                }
            }
            if n == capacity {
                vstd::arithmetic::div_mod::lemma_mod_self_0(c);
            }
        } else {
            vstd::arithmetic::div_mod::lemma_mod_bound(m, c);
            vstd::arithmetic::div_mod::lemma_add_mod_noop(m, 1, c);
            vstd::arithmetic::div_mod::lemma_add_mod_noop(m % c, 1, c);
            assert((m % c + 1) % c == (m + 1) % c) by {
                vstd::arithmetic::div_mod::lemma_mod_twice(m, c);
            }
            assert forall|k: int| n - c <= k < n implies ring.slots[k % c]
                == #[trigger] tokens[k] by {
                vstd::arithmetic::div_mod::lemma_mod_bound(k, c);
                if k < m {
                    assert(tokens[k] == front[k]);
                    if k % c == m % c {
                        vstd::arithmetic::div_mod::lemma_fundamental_div_mod(k, c);
                        vstd::arithmetic::div_mod::lemma_fundamental_div_mod(m, c);
                        assert(false) by (nonlinear_arith)
                            requires
                                k == c * (k / c) + k % c,
                                m == c * (m / c) + m % c,
                                k % c == m % c,
                                0 < m - k < c,
                        ;
                    }
                }
            }
        }
    }
}

impl View for CircularTokenBuffer {
    type V = Seq<u32>;

    open spec fn view(&self) -> Seq<u32> {
        Seq::new(
            self.slots().len(),
            |i: int| self.slots()[(self.oldest() + i) % (self.spec_capacity() as int)],
        )
    }
}

impl CircularTokenBuffer {
    /// The number of tokens that the buffer has room for.
    pub closed spec fn spec_capacity(&self) -> nat {
        self.capacity as nat
    }

    /// The slots in use, in the order in which they lie in memory.
    pub closed spec fn slots(&self) -> Seq<u32> {
        self.buffer@.take(self.len as int)
    }

    /// The slot that holds the oldest token.
    pub closed spec fn oldest(&self) -> int {
        if self.len < self.capacity {
            0
        } else {
            self.head as int
        }
    }

    /// How the tokens lie in memory.
    pub open spec fn ring(&self) -> Ring {
        Ring { slots: self.slots(), oldest: self.oldest() }
    }

    /// The slots are as many as the capacity, and fill up from the first one on before the
    /// head wraps.
    pub closed spec fn wf(&self) -> bool {
        &&& self.capacity > 0
        &&& self.buffer@.len() == self.capacity
        &&& self.head < self.capacity
        &&& self.len <= self.capacity
        &&& self.len < self.capacity ==> self.head == self.len
    }

    /// Create a pre-allocated circular token buffer of fixed capacity B.
    pub fn new(capacity: usize) -> (b: Self)
        requires
            capacity > 0,
        ensures
            b.wf(),
            b.spec_capacity() == capacity,
            b.ring() == Ring::empty(),
            b@ == Seq::<u32>::empty(),
    {
        Self { capacity, head: 0, len: 0, buffer: vec![0; capacity] }
    }

    /// Reset buffer state to empty.
    pub fn clear(&mut self)
        requires
            old(self).wf(),
        ensures
            final(self).wf(),
            final(self).spec_capacity() == old(self).spec_capacity(),
            final(self).ring() == Ring::empty(),
            final(self)@ == Seq::<u32>::empty(),
    {
        self.head = 0;
        self.len = 0;
    }

    /// Push a token into the ring buffer, overwriting the oldest entry if full. O(1).
    pub fn push(&mut self, token: u32)
        requires
            old(self).wf(),
        ensures
            final(self).wf(),
            final(self).spec_capacity() == old(self).spec_capacity(),
            final(self)@ == pushed(old(self)@, old(self).spec_capacity(), token),
            final(self).ring() == old(self).ring().pushed(old(self).spec_capacity(), token),
    {
        let ghost before = *self;
        self.buffer[self.head] = token;
        self.head = if self.head + 1 == self.capacity { 0 } else { self.head + 1 };
        if self.len < self.capacity {
            self.len += 1;
        }
        proof {
            let cap = self.capacity as int;
            if before.len == before.capacity {
                if before.head + 1 < cap {
                    vstd::arithmetic::div_mod::lemma_small_mod((before.head + 1) as nat, cap as nat);
                } else {
                    vstd::arithmetic::div_mod::lemma_mod_self_0(cap);
                }
            }
            assert(self.slots() =~= if before.slots().len() < before.spec_capacity() {
                before.slots().push(token)
            } else {
                before.slots().update(before.oldest(), token)
            });
            assert forall|i: int| 0 <= i < self@.len() implies self@[i] == pushed(
                before@,
                before.spec_capacity(),
                token,
            )[i] by {
                if before.len < before.capacity {
                    assert(i < cap);
                    assert(self.oldest() == 0);
                    vstd::arithmetic::div_mod::lemma_small_mod(i as nat, cap as nat);
                } else if before.head + 1 == before.capacity {
                    vstd::arithmetic::div_mod::lemma_small_mod(i as nat, cap as nat);
                    if i + 1 < cap {
                        wrap(before.head + (i + 1), cap);
                    }
                } else {
                    wrap(before.head + 1 + i, cap);
                }
            }
            assert(self@ =~= pushed(before@, before.spec_capacity(), token));
        }
    }

    /// Number of tokens currently in the buffer.
    pub fn len(&self) -> (n: usize)
        requires
            self.wf(),
        ensures
            n == self@.len(),
    {
        self.len
    }

    /// Capacity of the buffer.
    pub fn capacity(&self) -> (n: usize)
        requires
            self.wf(),
        ensures
            n == self.spec_capacity(),
            n > 0,
            self@.len() <= n,
    {
        self.capacity
    }

    /// Is buffer empty?
    pub fn is_empty(&self) -> (empty: bool)
        requires
            self.wf(),
        ensures
            empty <==> self@.len() == 0,
    {
        self.len == 0
    }

    /// The current tokens in chronological order (oldest to newest).
    pub fn to_vec(&self) -> (tokens: Vec<u32>)
        requires
            self.wf(),
        ensures
            tokens@ == self@,
    {
        let start: usize = if self.len < self.capacity {
            0
        } else {
            self.head
        };
        let mut tokens: Vec<u32> = Vec::with_capacity(self.len);
        let mut i: usize = 0;
        while i < self.len
            invariant
                self.wf(),
                start == self.oldest(),
                i <= self.len,
                tokens@ == self@.take(i as int),
            decreases self.len - i,
        {
            let room: usize = self.capacity - start;
            let idx: usize = if i < room { start + i } else { i - room };
            proof {
                wrap(start + i, self.capacity as int);
            }
            tokens.push(self.buffer[idx]);
            i += 1;
            assert(tokens@ =~= self@.take(i as int));
        }
        assert(self@.take(i as int) =~= self@);
        tokens
    }

    /// Iterate over current tokens in chronological order (oldest to newest).
    pub fn iter(&self) -> (tokens: std::vec::IntoIter<u32>)
        requires
            self.wf(),
        ensures
            vstd::std_specs::iter::IteratorSpec::remaining(&tokens) == self@,
    {
        self.to_vec().into_iter()
    }

    /// Internal raw slice access.
    pub fn raw_slice(&self) -> (slots: &[u32])
        requires
            self.wf(),
        ensures
            slots@ == self.slots(),
            slots@.len() == self@.len(),
    {
        vstd::slice::slice_subrange(self.buffer.as_slice(), 0, self.len)
    }
}

/// The attention scores of tokens: (query · embed(token)) / sqrt(d), and nothing for a token
/// outside the vocabulary.
pub open spec fn attention_scores<A: Arith>(
    tokens: Seq<u32>,
    query: Seq<A::T>,
    embed_table: Seq<A::T>,
    vocab_size: nat,
) -> Seq<A::T> {
    let scale = s_over::<A>(one::<A>(), s_sqrt::<A>(s_count::<A>(query.len() as usize)));
    Seq::new(
        tokens.len(),
        |i: int|
            if tokens[i] < vocab_size {
                s_times::<A>(
                    dot_of::<A>(query, row_of(embed_table, query.len(), tokens[i] as int)),
                    scale,
                )
            } else {
                s_neg_inf::<A>()
            },
    )
}

/// `dist` with `alpha` times the weights of the first `n` tokens added where those tokens are.
pub open spec fn scattered<A: Arith>(
    dist: Seq<A::T>,
    tokens: Seq<u32>,
    weights: Seq<A::T>,
    alpha: A::T,
    n: nat,
) -> Seq<A::T>
    decreases n,
{
    if n == 0 {
        dist
    } else {
        let before = scattered::<A>(dist, tokens, weights, alpha, (n - 1) as nat);
        let t = tokens[n - 1] as int;
        if t < dist.len() {
            before.update(t, s_plus::<A>(before[t], s_times::<A>(alpha, weights[n - 1])))
        } else {
            before
        }
    }
}

/// A distribution mixed with the copy distribution of a buffer that holds `tokens`:
/// (1 - alpha) * dist + alpha * copy_dist
pub open spec fn mixed_with_copy<A: Arith>(
    dist: Seq<A::T>,
    tokens: Seq<u32>,
    query: Seq<A::T>,
    embed_table: Seq<A::T>,
    alpha: A::T,
) -> Seq<A::T> {
    let weights = softmax_of::<A>(
        attention_scores::<A>(tokens, query, embed_table, dist.len()),
    );
    scattered::<A>(
        scaled::<A>(dist, s_minus::<A>(one::<A>(), alpha)),
        tokens,
        weights,
        alpha,
        tokens.len(),
    )
}

/// Compute single-query buffer attention:
/// 1. For each token in the buffer, compute score s_i = (query · embed(token_i)) / sqrt(d)
/// 2. Softmax over valid buffer scores -> weights alpha_i
/// 3. Scatter weights into vocabulary distribution: copy_dist[token_i] += alpha_i
/// 4. Interpolate final distribution: out_dist = (1 - alpha_mix) * out_dist + alpha_mix * copy_dist
///
/// Scratch buffers (scratch_scores, scratch_probs) must be at least buffer.len() in size.
#[verifier::rlimit(30)]
pub fn buffer_attention<A: Arith>(
    buffer: &CircularTokenBuffer,
    query: &[A::T],
    embed_table: &[A::T],
    vocab_size: usize,
    embed_dim: usize,
    scratch_scores: &mut [A::T],
    scratch_probs: &mut [A::T],
    out_vocab_dist: &mut [A::T],
    alpha_mix: A::T,
)
    requires
        lawful::<A>(),
        buffer.wf(),
        query@.len() == embed_dim,
        embed_table@.len() >= vocab_size * embed_dim,
        old(scratch_scores)@.len() >= buffer@.len(),
        old(scratch_probs)@.len() >= buffer@.len(),
        old(out_vocab_dist)@.len() == vocab_size,
    ensures
        final(out_vocab_dist)@ == if buffer@.len() == 0 {
            old(out_vocab_dist)@
        } else {
            mixed_with_copy::<A>(
                old(out_vocab_dist)@,
                buffer@,
                query@,
                embed_table@,
                alpha_mix,
            )
        },
        final(scratch_scores)@ == attention_scores::<A>(
            buffer@,
            query@,
            embed_table@,
            vocab_size as nat,
        ) + old(scratch_scores)@.skip(buffer@.len() as int),
        final(scratch_probs)@ == softmax_of::<A>(
            attention_scores::<A>(buffer@, query@, embed_table@, vocab_size as nat),
        ) + old(scratch_probs)@.skip(buffer@.len() as int),
{
    let buf_len: usize = buffer.len();
    let ghost scores = attention_scores::<A>(buffer@, query@, embed_table@, vocab_size as nat);
    if buf_len == 0 {
        assert(scores =~= Seq::<A::T>::empty());
        assert(scratch_scores@ =~= scores + scratch_scores@.skip(0));
        assert(scratch_probs@ =~= softmax_of::<A>(scores) + scratch_probs@.skip(0));
        return ;
    }
    let tokens = buffer.to_vec();
    let scale = A::over(A::lit(1, 0), A::sqrt(A::count(embed_dim)));
    // 1. Compute dot-product attention scores
    let mut i: usize = 0;
    while i < buf_len
        invariant
            lawful::<A>(),
            i <= buf_len,
            buf_len == tokens@.len(),
            tokens@ == buffer@,
            query@.len() == embed_dim,
            embed_table@.len() >= vocab_size * embed_dim,
            scratch_scores@.len() == old(scratch_scores)@.len(),
            scratch_scores@.len() >= buf_len,
            scale == s_over::<A>(one::<A>(), s_sqrt::<A>(s_count::<A>(embed_dim))),
            scores == attention_scores::<A>(buffer@, query@, embed_table@, vocab_size as nat),
            forall|j: int| 0 <= j < i ==> #[trigger] scratch_scores@[j] == scores[j],
            forall|j: int|
                i <= j < scratch_scores@.len() ==> #[trigger] scratch_scores@[j] == old(
                    scratch_scores,
                )@[j],
        decreases buf_len - i,
    {
        let t: usize = tokens[i] as usize;
        if t < vocab_size {
            proof {
                lemma_row_bounds(vocab_size as nat, embed_dim as nat, t as int);
                assert(embed_table.len() == embed_table@.len());
            }
            let start: usize = t * embed_dim;
            let token_embed = vstd::slice::slice_subrange(embed_table, start, start + embed_dim);
            scratch_scores[i] = A::times(dot::<A>(query, token_embed), scale);
        } else {
            scratch_scores[i] = A::neg_inf();
        }
        i += 1;
    }
    assert(scratch_scores@ =~= scores + old(scratch_scores)@.skip(buf_len as int));
    // 2. Softmax over buffer
    let active_scores = vstd::slice::slice_subrange(scratch_scores, 0, buf_len);
    assert(active_scores@ =~= scores);
    let active_probs = part_mut(scratch_probs, 0, buf_len);
    softmax::<A>(active_scores, active_probs);
    assert(scratch_probs@ =~= softmax_of::<A>(scores) + old(scratch_probs)@.skip(buf_len as int));
    // 3. Interpolate: scale the distribution by (1 - alpha_mix)
    let inv_alpha = A::minus(A::lit(1, 0), alpha_mix);
    vec_scale::<A>(out_vocab_dist, inv_alpha);
    // 4. Scatter copy distribution
    let ghost base = out_vocab_dist@;
    let ghost weights = softmax_of::<A>(scores);
    let mut k: usize = 0;
    while k < buf_len
        invariant
            lawful::<A>(),
            k <= buf_len,
            buf_len == tokens@.len(),
            tokens@ == buffer@,
            base.len() == vocab_size,
            out_vocab_dist@.len() == vocab_size,
            weights.len() == buf_len,
            scratch_probs@.len() >= buf_len,
            forall|j: int| 0 <= j < buf_len ==> #[trigger] scratch_probs@[j] == weights[j],
            out_vocab_dist@ == scattered::<A>(base, tokens@, weights, alpha_mix, k as nat),
        decreases buf_len - k,
    {
        let t: usize = tokens[k] as usize;
        if t < vocab_size {
            out_vocab_dist[t] = A::plus(out_vocab_dist[t], A::times(alpha_mix, scratch_probs[k]));
        }
        k += 1;
    }
}

/// A position less than two laps from the start lies where one lap at most is taken off.
proof fn wrap(position: int, lap: int)
    requires
        0 <= position < 2 * lap,
    ensures
        position % lap == if position < lap { position } else { position - lap },
{
    if position < lap {
        vstd::arithmetic::div_mod::lemma_small_mod(position as nat, lap as nat);
    } else {
        vstd::arithmetic::div_mod::lemma_small_mod((position - lap) as nat, lap as nat);
        vstd::arithmetic::div_mod::lemma_mod_sub_multiples_vanish(position, lap);
    }
}

} // verus!
