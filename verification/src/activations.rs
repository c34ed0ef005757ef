//! Activation functions and loss primitives for local layer training.

use vstd::prelude::*;
use crate::arith::{
    Arith, lawful, one, s_count, s_exp, s_lit, s_minus, s_negate, s_over, s_plus, s_sqrt, s_tanh,
    s_times, zero,
};

verus! {

/// Sigmoid: 1 / (1 + exp(-x))
pub open spec fn sigmoid_of<A: Arith>(v: A::T) -> A::T {
    s_over::<A>(one::<A>(), s_plus::<A>(one::<A>(), s_exp::<A>(s_negate::<A>(v))))
}

/// The gradient through a sigmoid whose output is `s`: grad_out * sig * (1 - sig)
pub open spec fn sigmoid_grad_of<A: Arith>(s: A::T, grad_out: A::T) -> A::T {
    s_times::<A>(s_times::<A>(grad_out, s), s_minus::<A>(one::<A>(), s))
}

/// The square root of 2 over pi.
pub open spec fn sqrt_2_over_pi<A: Arith>() -> A::T {
    s_sqrt::<A>(s_over::<A>(s_lit::<A>(2, 0), s_lit::<A>(3141592653589793238, 18)))
}

/// The cubic coefficient of GELU: 0.044715
pub open spec fn gelu_coefficient<A: Arith>() -> A::T {
    s_lit::<A>(44715, 6)
}

/// The argument of the tanh in GELU: sqrt(2/pi) * (x + 0.044715 * x^3)
pub open spec fn gelu_inner<A: Arith>(v: A::T) -> A::T {
    let cube = s_times::<A>(s_times::<A>(v, v), v);
    s_times::<A>(
        sqrt_2_over_pi::<A>(),
        s_plus::<A>(v, s_times::<A>(gelu_coefficient::<A>(), cube)),
    )
}

/// GELU (tanh approximation):
/// GELU(x) = 0.5 * x * (1 + tanh(sqrt(2/pi) * (x + 0.044715 * x^3)))
pub open spec fn gelu_of<A: Arith>(v: A::T) -> A::T {
    s_times::<A>(
        s_times::<A>(s_lit::<A>(5, 1), v),
        s_plus::<A>(one::<A>(), s_tanh::<A>(gelu_inner::<A>(v))),
    )
}

/// The gradient through GELU at `v`.
pub open spec fn gelu_grad_of<A: Arith>(v: A::T, grad_out: A::T) -> A::T {
    let half = s_lit::<A>(5, 1);
    let t = s_tanh::<A>(gelu_inner::<A>(v));
    let sech2 = s_minus::<A>(one::<A>(), s_times::<A>(t, t));
    let d_inner = s_times::<A>(
        sqrt_2_over_pi::<A>(),
        s_plus::<A>(
            one::<A>(),
            s_times::<A>(
                s_times::<A>(s_lit::<A>(3, 0), gelu_coefficient::<A>()),
                s_times::<A>(v, v),
            ),
        ),
    );
    let cdf = s_times::<A>(half, s_plus::<A>(one::<A>(), t));
    let pdf = s_times::<A>(s_times::<A>(s_times::<A>(half, v), sech2), d_inner);
    s_times::<A>(grad_out, s_plus::<A>(cdf, pdf))
}

/// SwiGLU: (x1 * sigmoid(x1)) * x2
pub open spec fn swiglu_of<A: Arith>(v1: A::T, v2: A::T) -> A::T {
    s_times::<A>(s_times::<A>(v1, sigmoid_of::<A>(v1)), v2)
}

/// The square of a difference, `(a - b)^2`.
pub open spec fn squared_difference<A: Arith>(a: A::T, b: A::T) -> A::T {
    s_times::<A>(s_minus::<A>(a, b), s_minus::<A>(a, b))
}

/// The squared differences of the first `n` elements, summed up from zero.
pub open spec fn squared_distance<A: Arith>(a: Seq<A::T>, b: Seq<A::T>, n: nat) -> A::T
    decreases n,
{
    if n == 0 {
        zero::<A>()
    } else {
        s_plus::<A>(
            squared_distance::<A>(a, b, (n - 1) as nat),
            squared_difference::<A>(a[n - 1], b[n - 1]),
        )
    }
}

/// Sigmoid of one value.
pub(crate) fn sigmoid_at<A: Arith>(v: A::T) -> (r: A::T)
    requires
        lawful::<A>(),
    ensures
        r == sigmoid_of::<A>(v),
{
    A::over(A::lit(1, 0), A::plus(A::lit(1, 0), A::exp(A::negate(v))))
}

fn gelu_inner_at<A: Arith>(v: A::T) -> (r: A::T)
    requires
        lawful::<A>(),
    ensures
        r == gelu_inner::<A>(v),
{
    let c = A::sqrt(A::over(A::lit(2, 0), A::lit(3141592653589793238, 18)));
    let cube = A::times(A::times(v, v), v);
    A::times(c, A::plus(v, A::times(A::lit(44715, 6), cube)))
}

fn gelu_at<A: Arith>(v: A::T) -> (r: A::T)
    requires
        lawful::<A>(),
    ensures
        r == gelu_of::<A>(v),
{
    A::times(A::times(A::lit(5, 1), v), A::plus(A::lit(1, 0), A::tanh(gelu_inner_at::<A>(v))))
}

fn gelu_grad_at<A: Arith>(v: A::T, grad_out: A::T) -> (r: A::T)
    requires
        lawful::<A>(),
    ensures
        r == gelu_grad_of::<A>(v, grad_out),
{
    let c = A::sqrt(A::over(A::lit(2, 0), A::lit(3141592653589793238, 18)));
    let v2 = A::times(v, v);
    let t = A::tanh(gelu_inner_at::<A>(v));
    let sech2 = A::minus(A::lit(1, 0), A::times(t, t));
    let d_inner = A::times(
        c,
        A::plus(A::lit(1, 0), A::times(A::times(A::lit(3, 0), A::lit(44715, 6)), v2)),
    );
    let cdf = A::times(A::lit(5, 1), A::plus(A::lit(1, 0), t));
    let pdf = A::times(A::times(A::times(A::lit(5, 1), v), sech2), d_inner);
    A::times(grad_out, A::plus(cdf, pdf))
}

/// Element-wise Sigmoid activation: 1 / (1 + exp(-x))
pub fn sigmoid<A: Arith>(x: &[A::T], out: &mut [A::T])
    requires
        lawful::<A>(),
        x@.len() == old(out)@.len(),
    ensures
        final(out)@ == Seq::new(old(out)@.len(), |i: int| sigmoid_of::<A>(x@[i])),
{
    let n: usize = out.len();
    let mut k: usize = 0;
    while k < n
        invariant
            lawful::<A>(),
            k <= n,
            out@.len() == n,
            x@.len() == n,
            forall|i: int| 0 <= i < k ==> #[trigger] out@[i] == sigmoid_of::<A>(x@[i]),
        decreases n - k,
    {
        out[k] = sigmoid_at::<A>(x[k]);
        k += 1;
    }
    assert(out@ =~= Seq::new(n as nat, |i: int| sigmoid_of::<A>(x@[i])));
}

/// Sigmoid backward gradient: grad_in = grad_out * sig * (1 - sig)
pub fn sigmoid_grad<A: Arith>(sig_out: &[A::T], grad_out: &[A::T], grad_in: &mut [A::T])
    requires
        lawful::<A>(),
        sig_out@.len() == old(grad_in)@.len(),
        grad_out@.len() == old(grad_in)@.len(),
    ensures
        final(grad_in)@ == Seq::new(
            old(grad_in)@.len(),
            |i: int| sigmoid_grad_of::<A>(sig_out@[i], grad_out@[i]),
        ),
{
    let n: usize = grad_in.len();
    let mut k: usize = 0;
    while k < n
        invariant
            lawful::<A>(),
            k <= n,
            grad_in@.len() == n,
            sig_out@.len() == n,
            grad_out@.len() == n,
            forall|i: int|
                0 <= i < k ==> #[trigger] grad_in@[i] == sigmoid_grad_of::<A>(
                    sig_out@[i],
                    grad_out@[i],
                ),
        decreases n - k,
    {
        grad_in[k] = A::times(
            A::times(grad_out[k], sig_out[k]),
            A::minus(A::lit(1, 0), sig_out[k]),
        );
        k += 1;
    }
    assert(grad_in@ =~= Seq::new(
        n as nat,
        |i: int| sigmoid_grad_of::<A>(sig_out@[i], grad_out@[i]),
    ));
}

/// Element-wise GELU activation (tanh approximation)
pub fn gelu<A: Arith>(x: &[A::T], out: &mut [A::T])
    requires
        lawful::<A>(),
        x@.len() == old(out)@.len(),
    ensures
        final(out)@ == Seq::new(old(out)@.len(), |i: int| gelu_of::<A>(x@[i])),
{
    let n: usize = out.len();
    let mut k: usize = 0;
    while k < n
        invariant
            lawful::<A>(),
            k <= n,
            out@.len() == n,
            x@.len() == n,
            forall|i: int| 0 <= i < k ==> #[trigger] out@[i] == gelu_of::<A>(x@[i]),
        decreases n - k,
    {
        out[k] = gelu_at::<A>(x[k]);
        k += 1;
    }
    assert(out@ =~= Seq::new(n as nat, |i: int| gelu_of::<A>(x@[i])));
}

/// In-place GELU activation
pub fn gelu_in_place<A: Arith>(buf: &mut [A::T])
    requires
        lawful::<A>(),
    ensures
        final(buf)@ == Seq::new(old(buf)@.len(), |i: int| gelu_of::<A>(old(buf)@[i])),
{
    let n: usize = buf.len();
    let ghost before = buf@;
    let mut k: usize = 0;
    while k < n
        invariant
            lawful::<A>(),
            k <= n,
            buf@.len() == n,
            before.len() == n,
            forall|i: int| 0 <= i < k ==> #[trigger] buf@[i] == gelu_of::<A>(before[i]),
            forall|i: int| k <= i < n ==> #[trigger] buf@[i] == before[i],
        decreases n - k,
    {
        buf[k] = gelu_at::<A>(buf[k]);
        k += 1;
    }
    assert(buf@ =~= Seq::new(n as nat, |i: int| gelu_of::<A>(before[i])));
}

/// Element-wise GELU backward gradient
pub fn gelu_grad<A: Arith>(x: &[A::T], grad_out: &[A::T], grad_in: &mut [A::T])
    requires
        lawful::<A>(),
        x@.len() == old(grad_in)@.len(),
        grad_out@.len() == old(grad_in)@.len(),
    ensures
        final(grad_in)@ == Seq::new(
            old(grad_in)@.len(),
            |i: int| gelu_grad_of::<A>(x@[i], grad_out@[i]),
        ),
{
    let n: usize = grad_in.len();
    let mut k: usize = 0;
    while k < n
        invariant
            lawful::<A>(),
            k <= n,
            grad_in@.len() == n,
            x@.len() == n,
            grad_out@.len() == n,
            forall|i: int|
                0 <= i < k ==> #[trigger] grad_in@[i] == gelu_grad_of::<A>(x@[i], grad_out@[i]),
        decreases n - k,
    {
        grad_in[k] = gelu_grad_at::<A>(x[k], grad_out[k]);
        k += 1;
    }
    assert(grad_in@ =~= Seq::new(n as nat, |i: int| gelu_grad_of::<A>(x@[i], grad_out@[i])));
}

/// SwiGLU forward pass: out = (x1 * sigmoid(x1)) * x2
pub fn swiglu<A: Arith>(x1: &[A::T], x2: &[A::T], out: &mut [A::T])
    requires
        lawful::<A>(),
        x1@.len() == old(out)@.len(),
        x2@.len() == old(out)@.len(),
    ensures
        final(out)@ == Seq::new(old(out)@.len(), |i: int| swiglu_of::<A>(x1@[i], x2@[i])),
{
    let n: usize = out.len();
    let mut k: usize = 0;
    while k < n
        invariant
            lawful::<A>(),
            k <= n,
            out@.len() == n,
            x1@.len() == n,
            x2@.len() == n,
            forall|i: int| 0 <= i < k ==> #[trigger] out@[i] == swiglu_of::<A>(x1@[i], x2@[i]),
        decreases n - k,
    {
        out[k] = A::times(A::times(x1[k], sigmoid_at::<A>(x1[k])), x2[k]);
        k += 1;
    }
    assert(out@ =~= Seq::new(n as nat, |i: int| swiglu_of::<A>(x1@[i], x2@[i])));
}

/// Mean Squared Error (MSE) loss of the reconstruction check:
/// L_recon = (1/d) * sum_i (pred_i - target_i)^2
pub open spec fn mse_of<A: Arith>(pred: Seq<A::T>, target: Seq<A::T>) -> A::T {
    if pred.len() == 0 {
        zero::<A>()
    } else {
        s_times::<A>(
            squared_distance::<A>(pred, target, pred.len()),
            s_over::<A>(one::<A>(), s_count::<A>(pred.len() as usize)),
        )
    }
}

/// Its gradient: grad_pred_i = (2/d) * (pred_i - target_i)
pub open spec fn mse_grad_of<A: Arith>(pred: Seq<A::T>, target: Seq<A::T>) -> Seq<A::T> {
    let inv_d = s_over::<A>(one::<A>(), s_count::<A>(pred.len() as usize));
    let factor = s_times::<A>(s_lit::<A>(2, 0), inv_d);
    Seq::new(pred.len(), |i: int| s_times::<A>(factor, s_minus::<A>(pred[i], target[i])))
}

/// Mean Squared Error (MSE) loss and gradient for reconstruction check:
/// L_recon = (1/d) * sum_i (pred_i - target_i)^2
/// grad_pred_i = (2/d) * (pred_i - target_i)
pub fn mse_loss_and_grad<A: Arith>(
    pred: &[A::T],
    target: &[A::T],
    grad_pred: &mut [A::T],
) -> (loss: A::T)
    requires
        lawful::<A>(),
        pred@.len() == target@.len(),
        pred@.len() == old(grad_pred)@.len(),
    ensures
        loss == mse_of::<A>(pred@, target@),
        final(grad_pred)@ == mse_grad_of::<A>(pred@, target@),
{
    let d: usize = pred.len();
    if d == 0 {
        assert(grad_pred@ =~= mse_grad_of::<A>(pred@, target@));
        return A::lit(0, 0);
    }
    let inv_d = A::over(A::lit(1, 0), A::count(d));
    let factor = A::times(A::lit(2, 0), inv_d);
    let mut sum_sq = A::lit(0, 0);
    let mut k: usize = 0;
    while k < d
        invariant
            lawful::<A>(),
            k <= d,
            pred@.len() == d,
            target@.len() == d,
            grad_pred@.len() == d,
            factor == s_times::<A>(
                s_lit::<A>(2, 0),
                s_over::<A>(one::<A>(), s_count::<A>(d)),
            ),
            sum_sq == squared_distance::<A>(pred@, target@, k as nat),
            forall|i: int|
                0 <= i < k ==> #[trigger] grad_pred@[i] == mse_grad_of::<A>(pred@, target@)[i],
        decreases d - k,
    {
        let diff = A::minus(pred[k], target[k]);
        sum_sq = A::plus(sum_sq, A::times(diff, diff));
        grad_pred[k] = A::times(factor, diff);
        k += 1;
    }
    assert(grad_pred@ =~= mse_grad_of::<A>(pred@, target@));
    A::times(sum_sq, inv_d)
}

/// Squared L2 distance: ||a - b||^2
pub fn l2_dist_sq<A: Arith>(a: &[A::T], b: &[A::T]) -> (r: A::T)
    requires
        lawful::<A>(),
        a@.len() == b@.len(),
    ensures
        r == squared_distance::<A>(a@, b@, a@.len()),
{
    let mut sum_sq = A::lit(0, 0);
    let mut k: usize = 0;
    while k < a.len()
        invariant
            lawful::<A>(),
            k <= a@.len(),
            a@.len() == b@.len(),
            sum_sq == squared_distance::<A>(a@, b@, k as nat),
        decreases a@.len() - k,
    {
        let diff = A::minus(a[k], b[k]);
        sum_sq = A::plus(sum_sq, A::times(diff, diff));
        k += 1;
    }
    sum_sq
}

} // verus!
