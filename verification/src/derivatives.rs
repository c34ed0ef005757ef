//! The gradients of activations and losses are their derivatives.

use vstd::prelude::*;
use crate::activations::{
    gelu_coefficient, gelu_grad_of, gelu_inner, gelu_of, mse_grad_of, mse_of, sigmoid_grad_of,
    sigmoid_of, sqrt_2_over_pi, squared_distance,
};
use crate::arith::{
    Arith, one, s_count, s_exp, s_larger, s_lit, s_ln, s_minus, s_negate, s_over, s_plus, s_sqrt,
    s_tanh, s_times,
};
use crate::exact::{
    exact, lemma_commutes, lemma_distributes, lemma_neutral, lemma_num_sum, lemma_regroups,
    lemma_total_at_least, lemma_total_plus, lemma_total_times, power_of_ten, total,
};
use crate::slopes::Calculus;
use crate::softmax::{
    cross_entropy_grad_of, cross_entropy_of, exponentials, max_of, normalized, normalizer,
    softmax_of, sum_of,
};

verus! {

/// A positive number times its reciprocal.
proof fn lemma_reciprocal(y: real, n: real)
    requires
        y > 0real,
        n == 1real / y,
    ensures
        n * y == 1real,
{
    assert(n * y == 1real) by (nonlinear_arith)
        requires
            y > 0real,
            n == 1real / y,
    ;
}

/// A factor that both sides share.
proof fn lemma_cancel(a: real, b: real, y: real)
    requires
        y > 0real,
        a * y == y * b,
    ensures
        a == b,
{
    assert(a == b) by (nonlinear_arith)
        requires
            y > 0real,
            a * y == y * b,
    ;
}

/// The slope of 1 / (1 + x), for a slope of `-x * sv` of `x`.
proof fn lemma_sigmoid_slope(x: real, y: real, n: real, w: real, sv: real)
    requires
        y == 1real + x,
        n * y == 1real,
        w * (y * y) == x * sv,
    ensures
        w == n * (1real - n) * sv,
{
    let (a, u, t) = (w * (y * y), n * y, n * x);
    assert(a * (n * n) == w * (u * u)) by (nonlinear_arith)
        requires
            a == w * (y * y),
            u == n * y,
    ;
    assert(w * (u * u) == w) by (nonlinear_arith)
        requires
            u == 1real,
    ;
    assert(a * (n * n) == n * t * sv) by (nonlinear_arith)
        requires
            a == x * sv,
            t == n * x,
    ;
    assert(n * y == n + t) by (nonlinear_arith)
        requires
            y == 1real + x,
            t == n * x,
    ;
    assert(n * t * sv == n * (1real - n) * sv) by (nonlinear_arith)
        requires
            t == 1real - n,
    ;
}

/// The gradient through a sigmoid is its derivative.
pub proof fn sigmoid_gradients_are_derivatives<A: Arith>(c: Calculus<A>, v: A::T, g: A::T)
    requires
        c.holds(),
    ensures
        (c.num)(g) * (c.slope)(sigmoid_of::<A>(v)) == (c.num)(
            sigmoid_grad_of::<A>(sigmoid_of::<A>(v), g),
        ) * (c.slope)(v),
{
    c.lemma_exact();
    reveal(Calculus::holds);
    reveal(exact);
    let e = s_exp::<A>(s_negate::<A>(v));
    let d = s_plus::<A>(one::<A>(), e);
    let s = sigmoid_of::<A>(v);
    let (x, y, sv, n, w) = ((c.num)(e), (c.num)(d), (c.slope)(v), (c.num)(s), (c.slope)(s));
    let k = (c.num)(g);
    assert(w * (y * y) == 0real * y - 1real * (x * -sv));
    assert(0real * y - 1real * (x * -sv) == x * sv) by (nonlinear_arith);
    lemma_reciprocal(y, n);
    lemma_sigmoid_slope(x, y, n, w, sv);
    assert(k * (n * (1real - n) * sv) == (k * n) * (1real - n) * sv) by (nonlinear_arith);
}

/// Numbers that do not move.
proof fn lemma_gelu_constants<A: Arith>(c: Calculus<A>)
    requires
        c.holds(),
    ensures
        (c.slope)(sqrt_2_over_pi::<A>()) == 0real,
        (c.slope)(gelu_coefficient::<A>()) == 0real,
        (c.num)(s_lit::<A>(3, 0)) == 3real,
{
    c.lemma_exact();
    reveal(Calculus::holds);
    reveal(exact);
    reveal_with_fuel(power_of_ten, 19);
    assert((c.num)(s_lit::<A>(3, 0)) * (1nat as real) == 3real);
    let two = s_lit::<A>(2, 0);
    let pi = s_lit::<A>(3141592653589793238, 18);
    let (a, b) = ((c.num)(two), (c.num)(pi));
    assert(a * (1nat as real) == 2real);
    assert(b * (power_of_ten(18) as real) == 3141592653589793238u64 as real);
    assert(power_of_ten(18) == 1000000000000000000);
    assert(b > 0real) by (nonlinear_arith)
        requires
            b * 1000000000000000000real == 3141592653589793238real,
    ;
    let q = s_over::<A>(two, pi);
    let (n, s) = ((c.num)(q), (c.slope)(q));
    assert(n == a / b);
    assert(n > 0real) by (nonlinear_arith)
        requires
            n == a / b,
            a == 2real,
            b > 0real,
    ;
    assert(s * (b * b) == 0real * b - a * 0real);
    assert(s == 0real) by (nonlinear_arith)
        requires
            s * (b * b) == 0real * b - a * 0real,
            b > 0real,
    ;
    let r = s_sqrt::<A>(q);
    let (x, w) = ((c.num)(r), (c.slope)(r));
    assert(w == 0real) by (nonlinear_arith)
        requires
            2real * (x * w) == 0real,
            x * x == n,
            n > 0real,
    ;
}

/// The gradient through GELU is its derivative.
pub proof fn gelu_gradients_are_derivatives<A: Arith>(c: Calculus<A>, v: A::T, g: A::T)
    requires
        c.holds(),
    ensures
        (c.num)(g) * (c.slope)(gelu_of::<A>(v)) == (c.num)(gelu_grad_of::<A>(v, g)) * (c.slope)(v),
{
    c.lemma_exact();
    lemma_gelu_constants::<A>(c);
    reveal(Calculus::holds);
    reveal(exact);
    let num = c.num;
    let slope = c.slope;
    let half = s_lit::<A>(5, 1);
    let root = sqrt_2_over_pi::<A>();
    let co = gelu_coefficient::<A>();
    let square = s_times::<A>(v, v);
    let cube = s_times::<A>(square, v);
    let t = s_tanh::<A>(gelu_inner::<A>(v));
    let (x, dx, h, k, m, n) = (num(v), slope(v), num(half), num(root), num(co), num(t));
    let weighed = s_times::<A>(co, cube);
    let sum = s_plus::<A>(v, weighed);
    let dc = slope(cube);
    assert(dc == (dx * x + x * dx) * x + (x * x) * dx);
    let dw = slope(weighed);
    assert(dw == 0real * num(cube) + m * dc);
    let di = slope(gelu_inner::<A>(v));
    assert(di == 0real * num(sum) + k * (dx + dw));
    let (nc, ns) = (num(cube), num(sum));
    let x2 = x * x;
    let p = (3real * m) * x2;
    let inner_slope = k * (1real + p);
    assert((dx * x + x * dx) * x + (x * x) * dx == 3real * ((x * x) * dx)) by (nonlinear_arith);
    assert(0real * nc == 0real && 0real * ns == 0real) by (nonlinear_arith);
    assert(m * dc == p * dx) by (nonlinear_arith)
        requires
            dc == 3real * (x2 * dx),
            p == (3real * m) * x2,
    ;
    assert(k * (dx + dw) == inner_slope * dx) by (nonlinear_arith)
        requires
            dw == p * dx,
            inner_slope == k * (1real + p),
    ;
    let dt = slope(t);
    assert(dt == (1real - n * n) * di);
    let dg = slope(gelu_of::<A>(v));
    assert(dg == (0real * x + h * dx) * (1real + n) + (h * x) * (0real + dt));
    let cdf = h * (1real + n);
    let (hx, r) = (h * x, 1real - n * n);
    let pdf = (hx * r) * inner_slope;
    assert((0real * x + h * dx) * (1real + n) == (h * (1real + n)) * dx) by (nonlinear_arith);
    assert(hx * (0real + dt) == pdf * dx) by (nonlinear_arith)
        requires
            dt == r * di,
            di == inner_slope * dx,
            pdf == (hx * r) * inner_slope,
    ;
    assert(cdf * dx + pdf * dx == (cdf + pdf) * dx) by (nonlinear_arith);
    assert(num(gelu_grad_of::<A>(v, g)) == num(g) * (cdf + pdf));
    let w = num(g);
    assert(w * ((cdf + pdf) * dx) == (w * (cdf + pdf)) * dx) by (nonlinear_arith);
}

/// The slope of a reciprocal.
proof fn lemma_slope_of_reciprocal(s: real, q: real, ds: real, dq: real)
    requires
        q * s == 1real,
        dq * (s * s) == 0real * s - 1real * ds,
    ensures
        dq * s == -(q * ds),
{
    let a = dq * s;
    let b = a * s;
    let u = q * s;
    assert(dq * (s * s) == b) by (nonlinear_arith)
        requires
            a == dq * s,
            b == a * s,
    ;
    assert(0real * s - 1real * ds == -ds) by (nonlinear_arith);
    assert(b * q == a * u) by (nonlinear_arith)
        requires
            b == a * s,
            u == q * s,
    ;
    assert(a * u == a) by (nonlinear_arith)
        requires
            u == 1real,
    ;
    assert(b * q == -(q * ds)) by (nonlinear_arith)
        requires
            b == -ds,
    ;
}

/// The slope of a share `e / s` of a sum, where `e` has the slope `e * k`.
proof fn lemma_slope_of_share(
    p: real,
    e: real,
    q: real,
    s: real,
    ds: real,
    dq: real,
    k: real,
    dp: real,
)
    requires
        dp == (e * k) * q + e * dq,
        p == e * q,
        q * s == 1real,
        dq * s == -(q * ds),
    ensures
        dp == p * (k - q * ds),
{
    let (a, u, r) = (dq * s, q * s, q * ds);
    lemma_regroups(q, dq, s);
    lemma_regroups(dq, q, s);
    lemma_commutes(q, dq);
    lemma_neutral(dq);
    assert(q * a == dq);
    lemma_distributes(q, 0real, r);
    lemma_neutral(q);
    assert(dq == -(q * r));
    lemma_distributes(e, 0real, q * r);
    lemma_neutral(e);
    lemma_regroups(e, q, r);
    assert(e * dq == -(p * r));
    lemma_regroups(e, k, q);
    lemma_distributes(p, k, r);
}

/// The shares of exponentials in their sum, relative to any `m`: they add up to one, and each moves
/// with its own exponent, less the mean of how all move.
pub(crate) proof fn lemma_shares_move<A: Arith>(
    c: Calculus<A>,
    values: Seq<A::T>,
    m: A::T,
    t: int,
)
    requires
        c.holds(),
        0 <= t < values.len(),
    ensures
        ({
            let probs = normalized::<A>(exponentials::<A>(values, m));
            &&& probs.len() == values.len()
            &&& total(values.len(), |i: int| (c.num)(probs[i])) == 1real
            &&& (c.slope)(probs[t]) == (c.num)(probs[t]) * ((c.slope)(values[t]) - c.along(
                probs,
                values,
            ))
        }),
{
    c.lemma_exact();
    let num = c.num;
    let slope = c.slope;
    let n = values.len();
    let exps = exponentials::<A>(values, m);
    let sum = sum_of::<A>(exps, n);
    let probs = normalized::<A>(exps);
    let inv = normalizer::<A>(sum);
    lemma_num_sum::<A>(num, exps, n);
    c.lemma_slope_sum(exps, n);
    let (s, ds) = (num(sum), slope(sum));
    let shares = |i: int| num(exps[i]);
    assert(s > 0real) by {
        reveal(exact);
        assert forall|i: int| 0 <= i < n implies #[trigger] shares(i) > 0real by {
            assert(exps[i] == s_exp::<A>(s_minus::<A>(values[i], m)));
        }
        lemma_total_at_least(n, shares, t);
        assert(shares(t) > 0real);
    }
    let q = num(inv);
    let dq = slope(inv);
    let dm = slope(m);
    assert(q == 1real / s && dq * (s * s) == 0real * s - 1real * ds) by {
        reveal(Calculus::holds);
        reveal(exact);
    }
    lemma_reciprocal(s, q);
    lemma_slope_of_reciprocal(s, q, ds, dq);
    // the slope of the sum of the exponentials
    let moves = |i: int| slope(exps[i]);
    let weighed = |i: int| num(probs[i]) * slope(values[i]);
    let weights = |i: int| num(probs[i]);
    let less = |i: int| (-dm) * weights(i);
    let scaled_moves = |i: int| weighed(i) + less(i);
    assert forall|i: int| 0 <= i < n implies #[trigger] scaled_moves(i) == q * moves(i) by {
        reveal(Calculus::holds);
        reveal(exact);
        let (e, z) = (num(exps[i]), slope(values[i]));
        assert(probs[i] == s_times::<A>(exps[i], inv));
        assert(slope(exps[i]) == e * (z - dm));
        let p = e * q;
        lemma_commutes(e, q);
        lemma_regroups(q, e, z - dm);
        lemma_distributes(p, z, dm);
        lemma_commutes(-dm, p);
        lemma_distributes(p, 0real, dm);
        lemma_neutral(p);
    }
    lemma_total_times(n, q, moves, scaled_moves);
    lemma_total_plus(n, weighed, less, scaled_moves);
    lemma_total_times(n, -dm, weights, less);
    assert(total(n, weights) == 1real) by {
        assert forall|i: int| 0 <= i < n implies #[trigger] weights(i) == q * shares(i) by {
            reveal(exact);
            assert(probs[i] == s_times::<A>(exps[i], inv));
            lemma_commutes(num(exps[i]), q);
        }
        lemma_total_times(n, q, shares, weights);
    }
    let all = total(n, weighed);
    lemma_neutral(-dm);
    assert(q * ds == all - dm);
    let e = num(exps[t]);
    let k = slope(values[t]) - dm;
    assert(num(probs[t]) == e * q && slope(probs[t]) == (e * k) * q + e * dq) by {
        reveal(Calculus::holds);
        reveal(exact);
        assert(probs[t] == s_times::<A>(exps[t], inv));
        assert(slope(exps[t]) == e * k);
    }
    lemma_slope_of_share(num(probs[t]), e, q, s, ds, dq, k, slope(probs[t]));
}

/// The derivatives of a softmax: each probability moves with its logit, less the mean of how all
/// logits move, and the probabilities add up to one.
pub proof fn softmax_moves_with_its_logits<A: Arith>(c: Calculus<A>, logits: Seq<A::T>, t: int)
    requires
        c.holds(),
        0 <= t < logits.len(),
    ensures
        total(logits.len(), |i: int| (c.num)(softmax_of::<A>(logits)[i])) == 1real,
        (c.slope)(softmax_of::<A>(logits)[t]) == (c.num)(softmax_of::<A>(logits)[t]) * ((c.slope)(
            logits[t],
        ) - c.along(softmax_of::<A>(logits), logits)),
{
    lemma_shares_move::<A>(c, logits, max_of::<A>(logits, logits.len()), t);
}

/// A probability that counts for itself in a cross-entropy: it is more than 1e-12.
pub open spec fn counts<A: Arith>(c: Calculus<A>, p: A::T) -> bool {
    (c.num)(p) * 1000000000000real > 1real
}

/// The gradient of the cross-entropy is its derivative: the slope of the loss is the sum of the
/// slopes of the logits, each times its gradient.
pub proof fn cross_entropy_gradients_are_derivatives<A: Arith>(
    c: Calculus<A>,
    logits: Seq<A::T>,
    target: int,
)
    requires
        c.holds(),
        0 <= target < logits.len(),
        counts(c, softmax_of::<A>(logits)[target]),
    ensures
        (c.slope)(cross_entropy_of::<A>(logits, target)) == c.along(
            cross_entropy_grad_of::<A>(logits, target),
            logits,
        ),
{
    c.lemma_exact();
    let num = c.num;
    let slope = c.slope;
    let n = logits.len();
    let probs = softmax_of::<A>(logits);
    softmax_moves_with_its_logits::<A>(c, logits, target);
    let weighed = |i: int| num(probs[i]) * slope(logits[i]);
    let all = total(n, weighed);
    // the slope of the loss
    let p = probs[target];
    let floor = s_lit::<A>(1, 12);
    let dz = slope(logits[target]);
    let loss_slope = slope(cross_entropy_of::<A>(logits, target));
    assert(loss_slope == all - dz) by {
        reveal(exact);
        reveal_with_fuel(power_of_ten, 13);
        assert(power_of_ten(12) == 1000000000000);
        let (y, f) = (num(p), num(floor));
        assert(f * (1000000000000nat as real) == 1real);
        assert(y > f && y > 0real) by (nonlinear_arith)
            requires
                y * 1000000000000real > 1real,
                f * 1000000000000real == 1real,
        ;
        reveal(Calculus::holds);
        let kept = s_larger::<A>(p, floor);
        let l = slope(s_ln::<A>(kept));
        assert(l * y == y * (dz - all));
        lemma_cancel(l, dz - all, y);
        assert(loss_slope == -l);
    }
    // the gradients
    let grads = cross_entropy_grad_of::<A>(logits, target);
    let told = |i: int| num(grads[i]) * slope(logits[i]);
    assert(told(target) == weighed(target) - dz) by {
        reveal(exact);
        let y = num(p);
        lemma_commutes(y - 1real, dz);
        lemma_distributes(dz, y, 1real);
        lemma_neutral(dz);
        lemma_commutes(dz, y);
    }
    lemma_one_less(weighed, told, n, target, dz);
}

/// The gradient of the mean squared error is its derivative: the slope of the error is the sum of
/// the slopes of the differences, each times its gradient.
pub proof fn mse_gradients_are_derivatives<A: Arith>(
    c: Calculus<A>,
    pred: Seq<A::T>,
    target: Seq<A::T>,
)
    requires
        c.holds(),
        0 < pred.len() <= usize::MAX,
        target.len() == pred.len(),
    ensures
        (c.slope)(mse_of::<A>(pred, target)) == c.along(mse_grad_of::<A>(pred, target), pred)
            - c.along(mse_grad_of::<A>(pred, target), target),
{
    c.lemma_exact();
    let num = c.num;
    let slope = c.slope;
    let n = pred.len();
    let inv = s_over::<A>(one::<A>(), s_count::<A>(n as usize));
    let q = num(inv);
    let grads = mse_grad_of::<A>(pred, target);
    let factor = 2real * q;
    assert(slope(inv) == 0real && num(s_times::<A>(s_lit::<A>(2, 0), inv)) == factor) by {
        reveal(Calculus::holds);
        reveal(exact);
        let two = num(s_lit::<A>(2, 0));
        assert(power_of_ten(0) == 1);
        assert(two * (1nat as real) == 2real);
        lemma_neutral(two);
        let (k, w) = (num(s_count::<A>(n as usize)), slope(inv));
        assert(k == n as real);
        lemma_neutral(k);
        lemma_neutral(1real);
        assert(w * (k * k) == 0real);
        assert(w == 0real) by (nonlinear_arith)
            requires
                w * (k * k) == 0real,
                k > 0real,
        ;
    }
    let f = |i: int| num(grads[i]) * slope(pred[i]);
    let g = |i: int| num(grads[i]) * slope(target[i]);
    let apart = |i: int| (2real * (num(pred[i]) - num(target[i]))) * (slope(pred[i]) - slope(
        target[i],
    ));
    let h = |i: int| q * apart(i);
    assert forall|i: int| 0 <= i < n implies #[trigger] f(i) == h(i) + g(i) by {
        reveal(exact);
        let (x, a, b) = (num(pred[i]) - num(target[i]), slope(pred[i]), slope(target[i]));
        let k = num(grads[i]);
        assert(k == factor * x);
        lemma_commutes(2real, q);
        lemma_regroups(q, 2real, x);
        lemma_regroups(q, 2real * x, a - b);
        lemma_distributes(k, a, b);
    }
    lemma_total_plus(n, h, g, f);
    lemma_total_times(n, q, apart, h);
    lemma_slope_of_squares(c, pred, target, n);
    assert(slope(mse_of::<A>(pred, target)) == slope(squared_distance::<A>(pred, target, n)) * q
        + num(squared_distance::<A>(pred, target, n)) * 0real) by {
        reveal(Calculus::holds);
    }
    lemma_neutral(num(squared_distance::<A>(pred, target, n)));
    lemma_commutes(slope(squared_distance::<A>(pred, target, n)), q);
}

/// The slope of a squared distance.
proof fn lemma_slope_of_squares<A: Arith>(
    c: Calculus<A>,
    a: Seq<A::T>,
    b: Seq<A::T>,
    n: nat,
)
    requires
        c.holds(),
    ensures
        (c.slope)(squared_distance::<A>(a, b, n)) == total(
            n,
            |i: int|
                (2real * ((c.num)(a[i]) - (c.num)(b[i]))) * ((c.slope)(a[i]) - (c.slope)(b[i])),
        ),
    decreases n,
{
    c.lemma_exact();
    if n > 0 {
        lemma_slope_of_squares(c, a, b, (n - 1) as nat);
        reveal(Calculus::holds);
        reveal(exact);
        let i = n - 1;
        let (x, y) = ((c.num)(a[i]) - (c.num)(b[i]), (c.slope)(a[i]) - (c.slope)(b[i]));
        lemma_commutes(x, y);
        lemma_regroups(2real, x, y);
    }
}

/// A sum of which one term is less by `x`.
proof fn lemma_one_less(
    f: spec_fn(int) -> real,
    g: spec_fn(int) -> real,
    n: nat,
    k: int,
    x: real,
)
    requires
        0 <= k,
        forall|i: int| 0 <= i < n && i != k ==> #[trigger] g(i) == f(i),
        k < n ==> g(k) == f(k) - x,
    ensures
        total(n, g) == if k < n {
            total(n, f) - x
        } else {
            total(n, f)
        },
    decreases n,
{
    if n > 0 {
        lemma_one_less(f, g, (n - 1) as nat, k, x);
        assert(n - 1 != k ==> g(n - 1) == f(n - 1));
    }
}

} // verus!
