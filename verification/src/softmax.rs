//! Numerically stable softmax, cross-entropy, and entropy kernels.

use vstd::prelude::*;
use crate::arith::{
    Arith, lawful, one, s_exceeds, s_exp, s_larger, s_lit, s_ln, s_minus, s_negate, s_over, s_plus,
    s_times, zero,
};
use crate::tensor::{scaled, vec_copy, vec_scale};

verus! {

/// The maximum of the first `n` values, from the first on: a later value takes over only where
/// it exceeds what came before.
pub open spec fn max_of<A: Arith>(values: Seq<A::T>, n: nat) -> A::T
    decreases n,
{
    if n <= 1 {
        values[0]
    } else {
        let before = max_of::<A>(values, (n - 1) as nat);
        if s_exceeds::<A>(values[n - 1], before) {
            values[n - 1]
        } else {
            before
        }
    }
}

/// The first `n` values summed up from zero.
pub open spec fn sum_of<A: Arith>(values: Seq<A::T>, n: nat) -> A::T
    decreases n,
{
    if n == 0 {
        zero::<A>()
    } else {
        s_plus::<A>(sum_of::<A>(values, (n - 1) as nat), values[n - 1])
    }
}

/// The exponentials of the differences to `max`.
pub open spec fn exponentials<A: Arith>(values: Seq<A::T>, max: A::T) -> Seq<A::T> {
    Seq::new(values.len(), |i: int| s_exp::<A>(s_minus::<A>(values[i], max)))
}

/// The factor that makes values with the sum `total` sum up to one; zero where the sum is not
/// positive.
pub open spec fn normalizer<A: Arith>(total: A::T) -> A::T {
    if s_exceeds::<A>(total, zero::<A>()) {
        s_over::<A>(one::<A>(), total)
    } else {
        zero::<A>()
    }
}

/// Values divided by their sum.
pub open spec fn normalized<A: Arith>(values: Seq<A::T>) -> Seq<A::T> {
    scaled::<A>(values, normalizer::<A>(sum_of::<A>(values, values.len())))
}

/// Softmax: exp(l_i - max) / sum_j exp(l_j - max).
pub open spec fn softmax_of<A: Arith>(logits: Seq<A::T>) -> Seq<A::T> {
    normalized::<A>(exponentials::<A>(logits, max_of::<A>(logits, logits.len())))
}

/// The reciprocal of a temperature, which counts as a millionth where it is less.
pub open spec fn inverse_temperature<A: Arith>(temperature: A::T) -> A::T {
    s_over::<A>(one::<A>(), s_larger::<A>(temperature, s_lit::<A>(1, 6)))
}

/// Softmax of the logits divided by a temperature.
pub open spec fn softmax_temperature_of<A: Arith>(
    logits: Seq<A::T>,
    temperature: A::T,
) -> Seq<A::T> {
    softmax_of::<A>(scaled::<A>(logits, inverse_temperature::<A>(temperature)))
}

/// Cross-entropy: -ln of the target's probability, which counts as 1e-12 where it is less.
pub open spec fn cross_entropy_of<A: Arith>(logits: Seq<A::T>, target: int) -> A::T {
    s_negate::<A>(s_ln::<A>(s_larger::<A>(softmax_of::<A>(logits)[target], s_lit::<A>(1, 12))))
}

/// The gradient of the cross-entropy: softmax(logits) - OneHot(target).
pub open spec fn cross_entropy_grad_of<A: Arith>(logits: Seq<A::T>, target: int) -> Seq<A::T> {
    let p = softmax_of::<A>(logits);
    p.update(target, s_minus::<A>(p[target], one::<A>()))
}

/// The entropy of the first `n` probabilities; those up to 1e-12 count for nothing.
pub open spec fn entropy_of<A: Arith>(probs: Seq<A::T>, n: nat) -> A::T
    decreases n,
{
    if n == 0 {
        zero::<A>()
    } else {
        let before = entropy_of::<A>(probs, (n - 1) as nat);
        let p = probs[n - 1];
        if s_exceeds::<A>(p, s_lit::<A>(1, 12)) {
            s_minus::<A>(before, s_times::<A>(p, s_ln::<A>(p)))
        } else {
            before
        }
    }
}

/// Divide values by their sum, which is given.
pub(crate) fn normalize<A: Arith>(values: &mut [A::T], total: A::T)
    requires
        lawful::<A>(),
        total == sum_of::<A>(old(values)@, old(values)@.len()),
    ensures
        final(values)@ == normalized::<A>(old(values)@),
{
    let z = A::lit(0, 0);
    let inv_sum = if A::exceeds(total, z) {
        A::over(A::lit(1, 0), total)
    } else {
        z
    };
    vec_scale::<A>(values, inv_sum);
}

/// Compute numerically stable softmax into output slice.
/// out_probs: pre-allocated slice of same length as logits.
pub fn softmax<A: Arith>(logits: &[A::T], out_probs: &mut [A::T])
    requires
        lawful::<A>(),
        logits@.len() == old(out_probs)@.len(),
    ensures
        final(out_probs)@ == softmax_of::<A>(logits@),
{
    let n: usize = logits.len();
    if n == 0 {
        assert(out_probs@ =~= softmax_of::<A>(logits@));
        return ;
    }
    // Step 1: Find maximum for numerical stability
    let mut max_val = logits[0];
    let mut k: usize = 1;
    while k < n
        invariant
            lawful::<A>(),
            1 <= k <= n,
            n == logits@.len(),
            max_val == max_of::<A>(logits@, k as nat),
        decreases n - k,
    {
        if A::exceeds(logits[k], max_val) {
            max_val = logits[k];
        }
        k += 1;
    }
    // Step 2: Exponentiate and sum
    let ghost exps = exponentials::<A>(logits@, max_val);
    let mut sum = A::lit(0, 0);
    let mut i: usize = 0;
    while i < n
        invariant
            lawful::<A>(),
            i <= n,
            n == logits@.len(),
            n == out_probs@.len(),
            exps == exponentials::<A>(logits@, max_val),
            forall|j: int| 0 <= j < i ==> #[trigger] out_probs@[j] == exps[j],
            sum == sum_of::<A>(exps, i as nat),
        decreases n - i,
    {
        let e = A::exp(A::minus(logits[i], max_val));
        out_probs[i] = e;
        sum = A::plus(sum, e);
        i += 1;
    }
    assert(out_probs@ =~= exps);
    // Step 3: Normalize
    normalize::<A>(out_probs, sum);
}

/// Numerically stable softmax with temperature scaling: p_i = exp(l_i / T) / sum(exp(l_j / T))
pub fn softmax_temperature<A: Arith>(logits: &[A::T], temperature: A::T, out_probs: &mut [A::T])
    requires
        lawful::<A>(),
        logits@.len() == old(out_probs)@.len(),
    ensures
        final(out_probs)@ == softmax_temperature_of::<A>(logits@, temperature),
{
    let n: usize = logits.len();
    if n == 0 {
        assert(out_probs@ =~= softmax_temperature_of::<A>(logits@, temperature));
        return ;
    }
    let inv_temp = A::over(A::lit(1, 0), A::larger(temperature, A::lit(1, 6)));
    let ghost cooled = scaled::<A>(logits@, inv_temp);
    let mut max_val = A::times(logits[0], inv_temp);
    let mut k: usize = 1;
    while k < n
        invariant
            lawful::<A>(),
            1 <= k <= n,
            n == logits@.len(),
            cooled == scaled::<A>(logits@, inv_temp),
            max_val == max_of::<A>(cooled, k as nat),
        decreases n - k,
    {
        let scaled_val = A::times(logits[k], inv_temp);
        if A::exceeds(scaled_val, max_val) {
            max_val = scaled_val;
        }
        k += 1;
    }
    let ghost exps = exponentials::<A>(cooled, max_val);
    let mut sum = A::lit(0, 0);
    let mut i: usize = 0;
    while i < n
        invariant
            lawful::<A>(),
            i <= n,
            n == logits@.len(),
            n == out_probs@.len(),
            cooled == scaled::<A>(logits@, inv_temp),
            exps == exponentials::<A>(cooled, max_val),
            forall|j: int| 0 <= j < i ==> #[trigger] out_probs@[j] == exps[j],
            sum == sum_of::<A>(exps, i as nat),
        decreases n - i,
    {
        let e = A::exp(A::minus(A::times(logits[i], inv_temp), max_val));
        out_probs[i] = e;
        sum = A::plus(sum, e);
        i += 1;
    }
    assert(out_probs@ =~= exps);
    normalize::<A>(out_probs, sum);
}

/// Computes cross-entropy loss and gradient with respect to logits:
/// Loss = -log(softmax(logits)[target])
/// Grad = softmax(logits) - OneHot(target)
/// Returns the scalar loss value, and writes probabilities and gradients into pre-allocated slices.
pub fn cross_entropy_loss_and_grad<A: Arith>(
    logits: &[A::T],
    target: usize,
    out_probs: &mut [A::T],
    out_grad: &mut [A::T],
) -> (loss: A::T)
    requires
        lawful::<A>(),
        logits@.len() == old(out_probs)@.len(),
        logits@.len() == old(out_grad)@.len(),
        target < logits@.len(),
    ensures
        loss == cross_entropy_of::<A>(logits@, target as int),
        final(out_probs)@ == softmax_of::<A>(logits@),
        final(out_grad)@ == cross_entropy_grad_of::<A>(logits@, target as int),
{
    softmax::<A>(logits, out_probs);
    let p_target = A::larger(out_probs[target], A::lit(1, 12));
    let loss = A::negate(A::ln(p_target));
    vec_copy(out_grad, out_probs);
    out_grad[target] = A::minus(out_grad[target], A::lit(1, 0));
    loss
}

/// Compute Shannon entropy H(p) = -sum(p_i * ln(p_i))
/// Used for triggering copy buffer and expert load balancing.
pub fn entropy<A: Arith>(probs: &[A::T]) -> (h: A::T)
    requires
        lawful::<A>(),
    ensures
        h == entropy_of::<A>(probs@, probs@.len()),
{
    let mut h = A::lit(0, 0);
    let mut k: usize = 0;
    while k < probs.len()
        invariant
            lawful::<A>(),
            k <= probs@.len(),
            h == entropy_of::<A>(probs@, k as nat),
        decreases probs@.len() - k,
    {
        let p = probs[k];
        let floor = A::lit(1, 12);
        if A::exceeds(p, floor) {
            h = A::minus(h, A::times(p, A::ln(p)));
        }
        k += 1;
    }
    h
}

/// Products distribute over sums, and a positive number times its reciprocal is one. Floats
/// round, and keep this only approximately.
pub open spec fn division_is_exact<A: Arith>() -> bool {
    &&& forall|a: A::T, b: A::T, c: A::T|
        #![trigger s_times::<A>(s_plus::<A>(a, b), c)]
        s_times::<A>(s_plus::<A>(a, b), c) == s_plus::<A>(
            s_times::<A>(a, c),
            s_times::<A>(b, c),
        )
    &&& forall|c: A::T| #[trigger] s_times::<A>(zero::<A>(), c) == zero::<A>()
    &&& forall|t: A::T|
        s_exceeds::<A>(t, zero::<A>()) ==> #[trigger] s_times::<A>(
            t,
            s_over::<A>(one::<A>(), t),
        ) == one::<A>()
}

pub proof fn lemma_sum_of_scaled<A: Arith>(values: Seq<A::T>, c: A::T, n: nat)
    requires
        division_is_exact::<A>(),
        n <= values.len(),
    ensures
        sum_of::<A>(scaled::<A>(values, c), n) == s_times::<A>(sum_of::<A>(values, n), c),
    decreases n,
{
    if n > 0 {
        lemma_sum_of_scaled::<A>(values, c, (n - 1) as nat);
    }
}

/// Probabilities sum up to one: where division is exact, and the exponentials have a positive
/// sum, the values of a softmax add up to exactly one.
pub proof fn softmax_sums_to_one<A: Arith>(logits: Seq<A::T>)
    requires
        division_is_exact::<A>(),
        s_exceeds::<A>(
            sum_of::<A>(
                exponentials::<A>(logits, max_of::<A>(logits, logits.len())),
                logits.len(),
            ),
            zero::<A>(),
        ),
    ensures
        sum_of::<A>(softmax_of::<A>(logits), logits.len()) == one::<A>(),
{
    let exps = exponentials::<A>(logits, max_of::<A>(logits, logits.len()));
    let total = sum_of::<A>(exps, logits.len());
    lemma_sum_of_scaled::<A>(exps, normalizer::<A>(total), logits.len());
}

} // verus!
