//! The random numbers that the library draws.
//!
//! Which numbers a generator gives is chance, and nothing is claimed of them. What is stated is
//! where they come from: which seed the generator was made from, and which draws came before.

use vstd::prelude::*;
use rand::rngs::StdRng;
use rand::{Rng, SeedableRng};
use crate::arith::{Arith, lawful, s_count, s_exceeds, s_lit, s_negate, s_over, s_sqrt};

verus! {

/// `rand::rngs::StdRng`, the generator whose state the caller carries.
#[verifier::external_type_specification]
#[verifier::external_body]
pub struct ExStdRng(StdRng);

/// `rand::SeedableRng::seed_from_u64` of `StdRng`: a generator in the state that the seed
/// stands for. Nothing is claimed of the numbers that it will give.
#[verifier::external_body]
fn seed_from(seed: u64) -> StdRng {
    StdRng::seed_from_u64(seed)
}

/// `rand::Rng::gen_range` on `0..=max`: some number of that range, whichever the state of the
/// generator gives, and the generator in its next state. The range is never empty, so the call
/// does not panic. Which number comes is chance, and nothing is claimed of it.
#[verifier::external_body]
fn range_draw(rng: StdRng, max: usize) -> (r: (usize, StdRng))
    ensures
        r.0 <= max,
{
    let mut rng = rng;
    let drawn = rng.gen_range(0..=max);
    (drawn, rng)
}

/// `rand::Rng::gen` of `u8`: any byte, whichever the state of the generator gives, and the
/// generator in its next state. Nothing is claimed of the byte.
#[verifier::external_body]
fn byte_draw(rng: StdRng) -> (u8, StdRng) {
    let mut rng = rng;
    let drawn = rng.gen::<u8>();
    (drawn, rng)
}

/// The generator is the one that the seed stands for.
pub closed spec fn is_seeded(seed: u64, rng: StdRng) -> bool {
    call_ensures(seed_from, (seed,), rng)
}

/// A generator draws a number up to `max`, and comes from one state into the next.
pub closed spec fn draws_up_to(before: StdRng, max: usize, drawn: usize, after: StdRng) -> bool {
    call_ensures(range_draw, (before, max), (drawn, after))
}

/// A generator draws a byte, and comes from one state into the next.
pub closed spec fn draws_byte(before: StdRng, drawn: u8, after: StdRng) -> bool {
    call_ensures(byte_draw, (before,), (drawn, after))
}

/// A generator draws `x` from `lo` to `hi`, and comes from one state into the next.
pub open spec fn draws<A: Arith>(
    before: StdRng,
    lo: A::T,
    hi: A::T,
    x: A::T,
    after: StdRng,
) -> bool {
    call_ensures(A::uniform, (before, lo, hi), (x, after))
}

/// A generator draws some numbers from `lo` to `hi`, one after another.
pub open spec fn draws_all<A: Arith>(
    before: StdRng,
    lo: A::T,
    hi: A::T,
    xs: Seq<A::T>,
    after: StdRng,
) -> bool
    decreases xs.len(),
{
    if xs.len() == 0 {
        after == before
    } else {
        exists|mid: StdRng|
            draws_all::<A>(before, lo, hi, xs.drop_last(), mid) && #[trigger] draws::<A>(
                mid,
                lo,
                hi,
                xs.last(),
                after,
            )
    }
}

/// Draws lie in their range: of numbers that a generator draws from `lo` to `hi`, none lies below
/// `lo` and all lie below `hi`.
pub proof fn draws_lie_in_their_range<A: Arith>(
    before: StdRng,
    lo: A::T,
    hi: A::T,
    xs: Seq<A::T>,
    after: StdRng,
)
    requires
        lawful::<A>(),
        s_exceeds::<A>(hi, lo),
        draws_all::<A>(before, lo, hi, xs, after),
    ensures
        forall|i: int|
            0 <= i < xs.len() ==> s_exceeds::<A>(hi, #[trigger] xs[i]) && !s_exceeds::<A>(
                lo,
                xs[i],
            ),
    decreases xs.len(),
{
    if xs.len() > 0 {
        let mid = choose|mid: StdRng|
            draws_all::<A>(before, lo, hi, xs.drop_last(), mid) && #[trigger] draws::<A>(
                mid,
                lo,
                hi,
                xs.last(),
                after,
            );
        draws_lie_in_their_range::<A>(before, lo, hi, xs.drop_last(), mid);
        assert forall|i: int| 0 <= i < xs.len() implies s_exceeds::<A>(hi, #[trigger] xs[i])
            && !s_exceeds::<A>(lo, xs[i]) by {
            if i < xs.len() - 1 {
                assert(xs.drop_last()[i] == xs[i]);
            }
        }
    }
}

/// The generator of a seed draws `n` numbers from `lo` to `hi`, one after another.
pub open spec fn numbers_from_seed<A: Arith>(
    seed: u64,
    lo: A::T,
    hi: A::T,
    n: nat,
    xs: Seq<A::T>,
) -> bool {
    xs.len() == n && exists|first: StdRng, last: StdRng|
        is_seeded(seed, first) && #[trigger] draws_all::<A>(first, lo, hi, xs, last)
}

/// A generator draws some bytes, one after another.
pub open spec fn draws_bytes(before: StdRng, bytes: Seq<u8>, after: StdRng) -> bool
    decreases bytes.len(),
{
    if bytes.len() == 0 {
        after == before
    } else {
        exists|mid: StdRng|
            draws_bytes(before, bytes.drop_last(), mid) && #[trigger] draws_byte(
                mid,
                bytes.last(),
                after,
            )
    }
}

/// The generator of a seed draws `n` bytes, one after another.
pub open spec fn bytes_from_seed(seed: u64, n: nat, bytes: Seq<u8>) -> bool {
    bytes.len() == n && exists|first: StdRng, last: StdRng|
        is_seeded(seed, first) && #[trigger] draws_bytes(first, bytes, last)
}

/// The generator of a seed.
pub(crate) fn seeded(seed: u64) -> (rng: StdRng)
    ensures
        is_seeded(seed, rng),
{
    seed_from(seed)
}

/// Take a generator out of its place; what is left there is to be replaced.
fn take(rng: &mut StdRng) -> (taken: StdRng)
    ensures
        taken == *old(rng),
{
    let mut taken = seed_from(0);
    core::mem::swap(&mut taken, rng);
    taken
}

/// Draw a number up to `max`.
pub(crate) fn draw_up_to(rng: &mut StdRng, max: usize) -> (drawn: usize)
    ensures
        drawn <= max,
        draws_up_to(*old(rng), max, drawn, *final(rng)),
{
    let (drawn, next) = range_draw(take(rng), max);
    *rng = next;
    drawn
}

/// Draw a byte.
pub(crate) fn draw_byte(rng: &mut StdRng) -> (drawn: u8)
    ensures
        draws_byte(*old(rng), drawn, *final(rng)),
{
    let (drawn, next) = byte_draw(take(rng));
    *rng = next;
    drawn
}

/// Draw a number from `lo` to `hi`.
pub(crate) fn draw<A: Arith>(rng: &mut StdRng, lo: A::T, hi: A::T) -> (x: A::T)
    ensures
        draws::<A>(*old(rng), lo, hi, x, *final(rng)),
{
    let (x, next) = A::uniform(take(rng), lo, hi);
    *rng = next;
    x
}

/// Draw `n` numbers from `lo` to `hi`.
pub(crate) fn draw_all<A: Arith>(rng: &mut StdRng, lo: A::T, hi: A::T, n: usize) -> (xs: Vec<A::T>)
    ensures
        xs@.len() == n,
        draws_all::<A>(*old(rng), lo, hi, xs@, *final(rng)),
{
    let ghost first = *rng;
    let mut xs: Vec<A::T> = Vec::with_capacity(n);
    let mut i: usize = 0;
    while i < n
        invariant
            i <= n,
            xs@.len() == i,
            draws_all::<A>(first, lo, hi, xs@, *rng),
        decreases n - i,
    {
        let ghost before = xs@;
        let ghost mid = *rng;
        let x = draw::<A>(rng, lo, hi);
        xs.push(x);
        assert(xs@.drop_last() =~= before);
        assert(draws::<A>(mid, lo, hi, xs@.last(), *rng));
        i += 1;
    }
    xs
}

/// Weights, and the scale that they are drawn from: `-scale` to `scale`.
pub struct WeightDraw<T> {
    pub weights: Seq<T>,
    pub scale: T,
}

/// A generator draws the weights of some matrices, one matrix after another.
pub open spec fn draws_weights<A: Arith>(
    before: StdRng,
    parts: Seq<WeightDraw<A::T>>,
    after: StdRng,
) -> bool
    decreases parts.len(),
{
    if parts.len() == 0 {
        after == before
    } else {
        exists|mid: StdRng|
            draws_weights::<A>(before, parts.drop_last(), mid) && #[trigger] draws_all::<A>(
                mid,
                s_negate::<A>(parts.last().scale),
                parts.last().scale,
                parts.last().weights,
                after,
            )
    }
}

/// The generator of a seed draws the weights of some matrices, one matrix after another.
pub open spec fn drawn_from_seed<A: Arith>(seed: u64, parts: Seq<WeightDraw<A::T>>) -> bool {
    exists|first: StdRng, last: StdRng|
        is_seeded(seed, first) && #[trigger] draws_weights::<A>(first, parts, last)
}

/// The scale of weights that are applied to `inputs` inputs: sqrt(gain / inputs)
pub open spec fn weight_scale<A: Arith>(gain: u64, inputs: usize) -> A::T {
    s_sqrt::<A>(s_over::<A>(s_lit::<A>(gain, 0), s_count::<A>(inputs)))
}

/// The scale of weights that are applied to `inputs` inputs.
pub(crate) fn scale_for<A: Arith>(gain: u64, inputs: usize) -> (scale: A::T)
    requires
        lawful::<A>(),
    ensures
        scale == weight_scale::<A>(gain, inputs),
{
    A::sqrt(A::over(A::lit(gain, 0), A::count(inputs)))
}

/// A generator together with what it has drawn.
pub(crate) struct WeightSource<A: Arith> {
    rng: StdRng,
    drawn: Ghost<Seq<WeightDraw<A::T>>>,
}

impl<A: Arith> WeightSource<A> {
    /// What was drawn so far.
    pub(crate) closed spec fn parts(&self) -> Seq<WeightDraw<A::T>> {
        self.drawn@
    }

    /// The generator is that of the seed, behind what was drawn.
    pub(crate) closed spec fn comes_from(&self, seed: u64) -> bool {
        exists|first: StdRng|
            is_seeded(seed, first) && #[trigger] draws_weights::<A>(first, self.drawn@, self.rng)
    }

    pub(crate) fn new(seed: u64) -> (source: Self)
        ensures
            source.comes_from(seed),
            source.parts() == Seq::<WeightDraw<A::T>>::empty(),
    {
        let rng = seeded(seed);
        let source = WeightSource { rng, drawn: Ghost(Seq::empty()) };
        assert(draws_weights::<A>(source.rng, source.drawn@, source.rng));
        source
    }

    /// Draw `n` weights from `-scale` to `scale`.
    pub(crate) fn draw(&mut self, scale: A::T, n: usize) -> (weights: Vec<A::T>)
        requires
            lawful::<A>(),
        ensures
            weights@.len() == n,
            final(self).parts() == old(self).parts().push(WeightDraw { weights: weights@, scale }),
            forall|seed: u64|
                old(self).comes_from(seed) ==> #[trigger] final(self).comes_from(seed),
    {
        let ghost before = *self;
        let weights = draw_all::<A>(&mut self.rng, A::negate(scale), scale, n);
        let ghost next = before.drawn@.push(WeightDraw { weights: weights@, scale });
        self.drawn = Ghost(next);
        proof {
            assert(self.drawn@ == next);
            assert(next.drop_last() =~= before.drawn@);
            assert forall|seed: u64| before.comes_from(seed) implies #[trigger] self.comes_from(
                seed,
            ) by {
                let first = choose|first: StdRng|
                    is_seeded(seed, first) && #[trigger] draws_weights::<A>(
                        first,
                        before.drawn@,
                        before.rng,
                    );
                assert(draws_all::<A>(
                    before.rng,
                    s_negate::<A>(next.last().scale),
                    next.last().scale,
                    next.last().weights,
                    self.rng,
                ));
                assert(draws_weights::<A>(first, next, self.rng));
            }
        }
        weights
    }

    /// What a source has drawn is drawn from its seed.
    pub(crate) proof fn lemma_drawn(&self, seed: u64)
        requires
            self.comes_from(seed),
        ensures
            drawn_from_seed::<A>(seed, self.parts()),
    {
    }
}

} // verus!
