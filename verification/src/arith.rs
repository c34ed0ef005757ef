//! Arithmetic as a parameter.
//!
//! The kernels of this crate are written once for any arithmetic that a `Arith` supplies:
//! single precision floats in production, exact numbers in an argument on paper. A `Arith`
//! states nothing about its operations. What the kernels rely on is `lawful`: that each
//! operation is a function of its operands. Contracts then say which expression over those
//! operations a kernel computes, in the order in which it computes it.

use vstd::prelude::*;
use rand::rngs::StdRng;

verus! {

/// The operations that the kernels draw on.
pub trait Arith {
    type T: Copy + Send + Sync;

    /// The decimal literal whose digits are given, the last `decimals` of them behind the point.
    fn lit(digits: u64, decimals: u32) -> Self::T;

    /// A value that no other value lies below.
    fn neg_inf() -> Self::T;

    /// The number of a count.
    fn count(n: usize) -> Self::T;

    fn plus(a: Self::T, b: Self::T) -> Self::T;

    fn minus(a: Self::T, b: Self::T) -> Self::T;

    fn times(a: Self::T, b: Self::T) -> Self::T;

    fn over(a: Self::T, b: Self::T) -> Self::T;

    fn negate(a: Self::T) -> Self::T;

    /// Whether `a` is greater than `b`.
    fn exceeds(a: Self::T, b: Self::T) -> bool;

    /// Whether `a` and `b` are numerically equal.
    fn equals(a: Self::T, b: Self::T) -> bool;

    /// The larger of two numbers.
    fn larger(a: Self::T, b: Self::T) -> Self::T;

    fn exp(a: Self::T) -> Self::T;

    fn ln(a: Self::T) -> Self::T;

    fn tanh(a: Self::T) -> Self::T;

    fn sqrt(a: Self::T) -> Self::T;

    fn powf(a: Self::T, b: Self::T) -> Self::T;

    /// A power with a whole exponent.
    fn powi(a: Self::T, n: u32) -> Self::T;

    fn cos(a: Self::T) -> Self::T;

    /// The smaller of two numbers.
    fn smaller(a: Self::T, b: Self::T) -> Self::T;

    /// The whole part of a number, as a count.
    fn whole(a: Self::T) -> usize;

    /// A number from `lo` up to but not including `hi`, drawn from a generator, and the generator
    /// in its next state.
    fn uniform(rng: StdRng, lo: Self::T, hi: Self::T) -> (Self::T, StdRng);
}

/// The value of `A::lit`.
pub open spec fn s_lit<A: Arith>(digits: u64, decimals: u32) -> A::T {
    choose|r: A::T| call_ensures(A::lit, (digits, decimals), r)
}

/// The value of `A::neg_inf`.
pub open spec fn s_neg_inf<A: Arith>() -> A::T {
    choose|r: A::T| call_ensures(A::neg_inf, (), r)
}

/// The value of `A::count`.
pub open spec fn s_count<A: Arith>(n: usize) -> A::T {
    choose|r: A::T| call_ensures(A::count, (n,), r)
}

/// The value of `A::plus`.
pub open spec fn s_plus<A: Arith>(a: A::T, b: A::T) -> A::T {
    choose|r: A::T| call_ensures(A::plus, (a, b), r)
}

/// The value of `A::minus`.
pub open spec fn s_minus<A: Arith>(a: A::T, b: A::T) -> A::T {
    choose|r: A::T| call_ensures(A::minus, (a, b), r)
}

/// The value of `A::times`.
pub open spec fn s_times<A: Arith>(a: A::T, b: A::T) -> A::T {
    choose|r: A::T| call_ensures(A::times, (a, b), r)
}

/// The value of `A::over`.
pub open spec fn s_over<A: Arith>(a: A::T, b: A::T) -> A::T {
    choose|r: A::T| call_ensures(A::over, (a, b), r)
}

/// The value of `A::negate`.
pub open spec fn s_negate<A: Arith>(a: A::T) -> A::T {
    choose|r: A::T| call_ensures(A::negate, (a,), r)
}

/// The value of `A::exceeds`.
pub open spec fn s_exceeds<A: Arith>(a: A::T, b: A::T) -> bool {
    choose|r: bool| call_ensures(A::exceeds, (a, b), r)
}

/// The value of `A::equals`.
pub open spec fn s_equals<A: Arith>(a: A::T, b: A::T) -> bool {
    choose|r: bool| call_ensures(A::equals, (a, b), r)
}

/// The value of `A::larger`.
pub open spec fn s_larger<A: Arith>(a: A::T, b: A::T) -> A::T {
    choose|r: A::T| call_ensures(A::larger, (a, b), r)
}

/// The value of `A::exp`.
pub open spec fn s_exp<A: Arith>(a: A::T) -> A::T {
    choose|r: A::T| call_ensures(A::exp, (a,), r)
}

/// The value of `A::ln`.
pub open spec fn s_ln<A: Arith>(a: A::T) -> A::T {
    choose|r: A::T| call_ensures(A::ln, (a,), r)
}

/// The value of `A::tanh`.
pub open spec fn s_tanh<A: Arith>(a: A::T) -> A::T {
    choose|r: A::T| call_ensures(A::tanh, (a,), r)
}

/// The value of `A::sqrt`.
pub open spec fn s_sqrt<A: Arith>(a: A::T) -> A::T {
    choose|r: A::T| call_ensures(A::sqrt, (a,), r)
}

/// The value of `A::powf`.
pub open spec fn s_powf<A: Arith>(a: A::T, b: A::T) -> A::T {
    choose|r: A::T| call_ensures(A::powf, (a, b), r)
}

/// The value of `A::powi`.
pub open spec fn s_powi<A: Arith>(a: A::T, n: u32) -> A::T {
    choose|r: A::T| call_ensures(A::powi, (a, n), r)
}

/// The value of `A::cos`.
pub open spec fn s_cos<A: Arith>(a: A::T) -> A::T {
    choose|r: A::T| call_ensures(A::cos, (a,), r)
}

/// The value of `A::smaller`.
pub open spec fn s_smaller<A: Arith>(a: A::T, b: A::T) -> A::T {
    choose|r: A::T| call_ensures(A::smaller, (a, b), r)
}

/// The value of `A::whole`.
pub open spec fn s_whole<A: Arith>(a: A::T) -> usize {
    choose|r: usize| call_ensures(A::whole, (a,), r)
}

/// Each operation of `A` is a function of its operands: on the same operands it always
/// returns the same value. The one exception is a draw, of which it holds only that it lies in its
/// range.
pub open spec fn lawful<A: Arith>() -> bool {
    &&& forall|m: u64, e: u32, r: A::T| #[trigger]
        call_ensures(A::lit, (m, e), r) ==> r == s_lit::<A>(m, e)
    &&& forall|r: A::T| #[trigger] call_ensures(A::neg_inf, (), r) ==> r == s_neg_inf::<A>()
    &&& forall|n: usize, r: A::T| #[trigger]
        call_ensures(A::count, (n,), r) ==> r == s_count::<A>(n)
    &&& forall|a: A::T, b: A::T, r: A::T| #[trigger]
        call_ensures(A::plus, (a, b), r) ==> r == s_plus::<A>(a, b)
    &&& forall|a: A::T, b: A::T, r: A::T| #[trigger]
        call_ensures(A::minus, (a, b), r) ==> r == s_minus::<A>(a, b)
    &&& forall|a: A::T, b: A::T, r: A::T| #[trigger]
        call_ensures(A::times, (a, b), r) ==> r == s_times::<A>(a, b)
    &&& forall|a: A::T, b: A::T, r: A::T| #[trigger]
        call_ensures(A::over, (a, b), r) ==> r == s_over::<A>(a, b)
    &&& forall|a: A::T, r: A::T| #[trigger]
        call_ensures(A::negate, (a,), r) ==> r == s_negate::<A>(a)
    &&& forall|a: A::T, b: A::T, r: bool| #[trigger]
        call_ensures(A::exceeds, (a, b), r) ==> r == s_exceeds::<A>(a, b)
    &&& forall|a: A::T, b: A::T, r: bool| #[trigger]
        call_ensures(A::equals, (a, b), r) ==> r == s_equals::<A>(a, b)
    &&& forall|a: A::T, b: A::T, r: A::T| #[trigger]
        call_ensures(A::larger, (a, b), r) ==> r == s_larger::<A>(a, b)
    &&& forall|a: A::T, r: A::T| #[trigger] call_ensures(A::exp, (a,), r) ==> r == s_exp::<A>(a)
    &&& forall|a: A::T, r: A::T| #[trigger] call_ensures(A::ln, (a,), r) ==> r == s_ln::<A>(a)
    &&& forall|a: A::T, r: A::T| #[trigger] call_ensures(A::tanh, (a,), r) ==> r == s_tanh::<A>(a)
    &&& forall|a: A::T, r: A::T| #[trigger] call_ensures(A::sqrt, (a,), r) ==> r == s_sqrt::<A>(a)
    &&& forall|a: A::T, b: A::T, r: A::T| #[trigger]
        call_ensures(A::powf, (a, b), r) ==> r == s_powf::<A>(a, b)
    &&& forall|a: A::T, n: u32, r: A::T| #[trigger]
        call_ensures(A::powi, (a, n), r) ==> r == s_powi::<A>(a, n)
    &&& forall|a: A::T, r: A::T| #[trigger] call_ensures(A::cos, (a,), r) ==> r == s_cos::<A>(a)
    &&& forall|a: A::T, b: A::T, r: A::T| #[trigger]
        call_ensures(A::smaller, (a, b), r) ==> r == s_smaller::<A>(a, b)
    &&& forall|a: A::T, r: usize| #[trigger]
        call_ensures(A::whole, (a,), r) ==> r == s_whole::<A>(a)
    &&& forall|rng: StdRng, lo: A::T, hi: A::T, x: A::T, next: StdRng| #[trigger]
        call_ensures(A::uniform, (rng, lo, hi), (x, next)) && s_exceeds::<A>(hi, lo)
            ==> s_exceeds::<A>(hi, x) && !s_exceeds::<A>(lo, x)
}

/// An arithmetic that has room for the numbers of another: a reference computes in it, and hands
/// its results back.
pub trait Wide<A: Arith>: Arith {
    fn widen(a: A::T) -> Self::T;

    fn narrow(b: Self::T) -> A::T;
}

/// The value of `B::widen`.
pub open spec fn s_widen<A: Arith, B: Wide<A>>(a: A::T) -> B::T {
    choose|r: B::T| call_ensures(B::widen, (a,), r)
}

/// The value of `B::narrow`.
pub open spec fn s_narrow<A: Arith, B: Wide<A>>(b: B::T) -> A::T {
    choose|r: A::T| call_ensures(B::narrow, (b,), r)
}

/// Both arithmetics are lawful, and the conversions between them are functions too.
pub open spec fn lawful_pair<A: Arith, B: Wide<A>>() -> bool {
    &&& lawful::<A>()
    &&& lawful::<B>()
    &&& forall|a: A::T, r: B::T| #[trigger]
        call_ensures(B::widen, (a,), r) ==> r == s_widen::<A, B>(a)
    &&& forall|b: B::T, r: A::T| #[trigger]
        call_ensures(B::narrow, (b,), r) ==> r == s_narrow::<A, B>(b)
}

/// Zero.
pub open spec fn zero<A: Arith>() -> A::T {
    s_lit::<A>(0, 0)
}

/// One.
pub open spec fn one<A: Arith>() -> A::T {
    s_lit::<A>(1, 0)
}

/// Sums do not depend on their order, and zero adds nothing. Floats round, and keep this only
/// approximately.
#[verifier::opaque]
pub open spec fn sums_are_exact<A: Arith>() -> bool {
    &&& forall|a: A::T, b: A::T| #[trigger] s_plus::<A>(a, b) == s_plus::<A>(b, a)
    &&& forall|a: A::T, b: A::T, c: A::T|
        #![trigger s_plus::<A>(s_plus::<A>(a, b), c)]
        s_plus::<A>(s_plus::<A>(a, b), c) == s_plus::<A>(a, s_plus::<A>(b, c))
    &&& forall|a: A::T| #[trigger] s_plus::<A>(a, zero::<A>()) == a
}

/// A product with something that equals zero is zero.
pub open spec fn zero_absorbs<A: Arith>() -> bool {
    forall|a: A::T, b: A::T|
        s_equals::<A>(a, zero::<A>()) ==> #[trigger] s_times::<A>(a, b) == zero::<A>()
}

/// Zero equals itself, adds nothing, and gives zero in products and taken from itself. Floats that
/// are neither infinite nor undefined keep this, but for the signs of their zeros.
#[verifier::opaque]
pub open spec fn zeros_vanish<A: Arith>() -> bool {
    &&& s_equals::<A>(zero::<A>(), zero::<A>())
    &&& s_minus::<A>(zero::<A>(), zero::<A>()) == zero::<A>()
    &&& forall|a: A::T| #[trigger] s_times::<A>(zero::<A>(), a) == zero::<A>()
    &&& forall|a: A::T| #[trigger] s_times::<A>(a, zero::<A>()) == zero::<A>()
    &&& forall|a: A::T| #[trigger] s_plus::<A>(a, zero::<A>()) == a
}

} // verus!
