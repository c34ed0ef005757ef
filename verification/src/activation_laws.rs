//! What the activations, the losses and the draws are, in exact numbers.

use vstd::prelude::*;
use crate::activations::{
    gelu_coefficient, gelu_inner, gelu_of, mse_of, sigmoid_of, sqrt_2_over_pi, squared_distance,
    swiglu_of,
};
use crate::arith::{
    Arith, s_count, s_exceeds, s_exp, s_larger, s_lit, s_ln, s_neg_inf, s_negate, s_tanh, zero,
};
use crate::exact::{
    exact, exponentials_multiply, lemma_commutes, lemma_distributes, lemma_neutral, lemma_num_sum,
    lemma_regroups, lemma_total_at_least, lemma_total_same, lemma_zero_one, power_of_ten, total,
};
use crate::forge_model::silu_of;
use crate::infer::{is_reached, picked};
use crate::memory_laws::{exponentials_grow, lemma_squared_distance};
use crate::softmax::{cross_entropy_of, entropy_of, max_of, softmax_of};
use crate::topk::{Entry, max_value_of, topk_softmax_of};

verus! {

/// The exponentials of opposite numbers.
proof fn lemma_opposite_exponentials<A: Arith>(num: spec_fn(A::T) -> real, a: A::T, b: A::T)
    requires
        exact::<A>(num),
        exponentials_multiply::<A>(num),
        exponentials_grow::<A>(num),
        num(a) + num(b) == 0real,
    ensures
        num(s_exp::<A>(a)) * num(s_exp::<A>(b)) == 1real,
        num(s_exp::<A>(a)) > 0real,
        num(s_exp::<A>(b)) > 0real,
{
    lemma_zero_one::<A>(num);
    let nothing = zero::<A>();
    assert(num(s_exp::<A>(nothing)) == 1real) by {
        reveal(exponentials_grow);
    }
    assert(num(s_exp::<A>(nothing)) == num(s_exp::<A>(a)) * num(s_exp::<A>(b))) by {
        reveal(exponentials_multiply);
    }
    reveal(exact);
}

/// The sigmoid lies between zero and one, rises, and takes opposite numbers to values that make up
/// one.
pub proof fn sigmoids_are_symmetric<A: Arith>(num: spec_fn(A::T) -> real, x: A::T, y: A::T)
    requires
        exact::<A>(num),
        exponentials_multiply::<A>(num),
        exponentials_grow::<A>(num),
    ensures
        0real < num(sigmoid_of::<A>(x)) < 1real,
        num(x) < num(y) ==> num(sigmoid_of::<A>(x)) < num(sigmoid_of::<A>(y)),
        num(x) + num(y) == 0real ==> num(sigmoid_of::<A>(x)) + num(sigmoid_of::<A>(y)) == 1real,
{
    lemma_zero_one::<A>(num);
    let (e, f) = (num(s_exp::<A>(s_negate::<A>(x))), num(s_exp::<A>(s_negate::<A>(y))));
    let (s, t) = (num(sigmoid_of::<A>(x)), num(sigmoid_of::<A>(y)));
    assert(e > 0real && f > 0real && s == 1real / (1real + e) && t == 1real / (1real + f)) by {
        reveal(exact);
    }
    let (a, b) = (1real + e, 1real + f);
    assert(s * a == 1real && 0real < s < 1real) by (nonlinear_arith)
        requires
            s == 1real / a,
            a > 1real,
    ;
    assert(t * b == 1real) by (nonlinear_arith)
        requires
            t == 1real / b,
            b > 1real,
    ;
    if num(x) < num(y) {
        assert(f < e) by {
            reveal(exact);
            reveal(exponentials_grow);
        }
        assert(s < t) by (nonlinear_arith)
            requires
                s * a == 1real,
                t * b == 1real,
                1real < b < a,
                s > 0real,
        ;
    }
    if num(x) + num(y) == 0real {
        assert(num(s_negate::<A>(x)) + num(s_negate::<A>(y)) == 0real) by {
            reveal(exact);
        }
        lemma_opposite_exponentials::<A>(num, s_negate::<A>(x), s_negate::<A>(y));
        let es = e * s;
        lemma_distributes(es, 1real, f);
        lemma_neutral(es);
        lemma_regroups(e, s, f);
        lemma_commutes(e, f);
        lemma_regroups(e, f, s);
        lemma_neutral(s);
        lemma_distributes(s, 1real, e);
        lemma_commutes(s, e);
        assert(es * b == 1real);
        assert(es == t) by (nonlinear_arith)
            requires
                es * b == 1real,
                t * b == 1real,
                b > 1real,
        ;
    }
}

/// The swish of a number and of its opposite differ by the number.
pub proof fn swishes_differ_by_their_input<A: Arith>(num: spec_fn(A::T) -> real, x: A::T, y: A::T)
    requires
        exact::<A>(num),
        exponentials_multiply::<A>(num),
        exponentials_grow::<A>(num),
        num(x) + num(y) == 0real,
    ensures
        num(silu_of::<A>(x)) - num(silu_of::<A>(y)) == num(x),
        num(x) >= 0real ==> 0real <= num(silu_of::<A>(x)) <= num(x),
{
    lemma_zero_one::<A>(num);
    sigmoids_are_symmetric::<A>(num, x, y);
    lemma_silu::<A>(num, x);
    lemma_silu::<A>(num, y);
    let (s, t, v) = (num(sigmoid_of::<A>(x)), num(sigmoid_of::<A>(y)), num(x));
    lemma_distributes(v, s, t);
    lemma_neutral(v);
    assert((-v) * t == -(v * t)) by (nonlinear_arith);
    if v >= 0real {
        assert(0real <= v * s <= v) by (nonlinear_arith)
            requires
                0real < s < 1real,
                v >= 0real,
        ;
    }
}

/// The swish is its input times the sigmoid.
proof fn lemma_silu<A: Arith>(num: spec_fn(A::T) -> real, x: A::T)
    requires
        exact::<A>(num),
    ensures
        num(silu_of::<A>(x)) == num(x) * num(sigmoid_of::<A>(x)),
{
    lemma_zero_one::<A>(num);
    reveal(exact);
    let (v, b) = (num(x), 1real + num(s_exp::<A>(s_negate::<A>(x))));
    let (q, s) = (v / b, 1real / b);
    assert(q == v * s) by (nonlinear_arith)
        requires
            q == v / b,
            s == 1real / b,
            b > 0real,
    ;
}

/// The gated activation is the swish of its gate times what it gates.
pub proof fn gates_swish<A: Arith>(num: spec_fn(A::T) -> real, gate: A::T, up: A::T)
    requires
        exact::<A>(num),
    ensures
        num(swiglu_of::<A>(gate, up)) == num(silu_of::<A>(gate)) * num(up),
{
    lemma_silu::<A>(num, gate);
    reveal(exact);
}

/// The hyperbolic tangent of opposite numbers is opposite, and never beyond one.
#[verifier::opaque]
pub open spec fn tangents_are_odd<A: Arith>(num: spec_fn(A::T) -> real) -> bool {
    &&& forall|a: A::T, b: A::T|
        #![trigger s_tanh::<A>(a), s_tanh::<A>(b)]
        num(a) + num(b) == 0real ==> num(s_tanh::<A>(a)) + num(s_tanh::<A>(b)) == 0real
    &&& forall|a: A::T| -1real <= num(#[trigger] s_tanh::<A>(a)) <= 1real
    &&& forall|a: A::T| num(a) >= 0real ==> num(#[trigger] s_tanh::<A>(a)) >= 0real
}

/// The GELU of a number and of its opposite differ by the number, and it lies between zero and its
/// input.
pub proof fn gelus_differ_by_their_input<A: Arith>(num: spec_fn(A::T) -> real, x: A::T, y: A::T)
    requires
        exact::<A>(num),
        tangents_are_odd::<A>(num),
        num(x) + num(y) == 0real,
    ensures
        num(gelu_of::<A>(x)) - num(gelu_of::<A>(y)) == num(x),
        num(x) >= 0real ==> 0real <= num(gelu_of::<A>(x)) <= num(x),
{
    lemma_zero_one::<A>(num);
    let v = num(x);
    let (a, b) = (gelu_inner::<A>(x), gelu_inner::<A>(y));
    assert(num(a) + num(b) == 0real) by {
        let (c, k) = (num(sqrt_2_over_pi::<A>()), num(gelu_coefficient::<A>()));
        let w = num(y);
        assert(w == -v);
        assert((w * w) * w == -((v * v) * v)) by (nonlinear_arith)
            requires
                w == -v,
        ;
        let (p, q) = ((v * v) * v, (w * w) * w);
        assert(k * q == -(k * p)) by (nonlinear_arith)
            requires
                q == -p,
        ;
        let (r, s) = (v + k * p, w + k * q);
        assert(c * s == -(c * r)) by (nonlinear_arith)
            requires
                s == -r,
        ;
        reveal(exact);
    }
    let (t, u) = (num(s_tanh::<A>(a)), num(s_tanh::<A>(b)));
    assert(t + u == 0real && -1real <= t <= 1real) by {
        reveal(tangents_are_odd);
    }
    let half = num(s_lit::<A>(5, 1));
    assert(half * 10real == 5real) by {
        reveal(exact);
        reveal_with_fuel(power_of_ten, 2);
        assert(power_of_ten(1) == 10);
        assert(half * (power_of_ten(1) as real) == 5u64 as real);
    }
    assert(num(gelu_of::<A>(x)) == (half * v) * (1real + t) && num(gelu_of::<A>(y)) == (half * num(
        y,
    )) * (1real + u)) by {
        reveal(exact);
    }
    assert(half * v == v / 2real && half * num(y) == -(v / 2real)) by (nonlinear_arith)
        requires
            half == 1real / 2real,
            num(y) == -v,
    ;
    let h = v / 2real;
    lemma_distributes(h, 1real, t);
    lemma_neutral(h);
    assert((-h) * (1real + u) == -h + h * t) by (nonlinear_arith)
        requires
            u == -t,
    ;
    if v >= 0real {
        assert(0real <= h * (1real + t) <= v) by (nonlinear_arith)
            requires
                h == v / 2real,
                v >= 0real,
                -1real <= t <= 1real,
        ;
    }
}

/// The mean squared error is the mean of the squared differences: it is never negative, zero only
/// for what is equal, and the same both ways.
pub proof fn squared_errors_measure_distance<A: Arith>(
    num: spec_fn(A::T) -> real,
    pred: Seq<A::T>,
    target: Seq<A::T>,
    i: int,
)
    requires
        exact::<A>(num),
        pred.len() == target.len(),
        0 <= i < pred.len() <= usize::MAX,
    ensures
        num(mse_of::<A>(pred, target)) * (pred.len() as real) == total(
            pred.len(),
            |k: int| (num(pred[k]) - num(target[k])) * (num(pred[k]) - num(target[k])),
        ),
        num(mse_of::<A>(pred, target)) == num(mse_of::<A>(target, pred)),
        num(mse_of::<A>(pred, target)) >= 0real,
        num(mse_of::<A>(pred, target)) == 0real ==> num(pred[i]) == num(target[i]),
{
    lemma_mse::<A>(num, pred, target);
    lemma_mse::<A>(num, target, pred);
    let n = pred.len() as real;
    let f = |k: int| (num(pred[k]) - num(target[k])) * (num(pred[k]) - num(target[k]));
    let g = |k: int| (num(target[k]) - num(pred[k])) * (num(target[k]) - num(pred[k]));
    assert forall|k: int| 0 <= k < pred.len() implies #[trigger] f(k) == g(k) && f(k) >= 0real by {
        let x = num(pred[k]) - num(target[k]);
        assert(x * x == (-x) * (-x) && x * x >= 0real) by (nonlinear_arith);
        assert(num(target[k]) - num(pred[k]) == -x);
    }
    lemma_total_same(pred.len(), f, g);
    lemma_total_at_least(pred.len(), f, i);
    let (a, b) = (num(mse_of::<A>(pred, target)), num(mse_of::<A>(target, pred)));
    let t = total(pred.len(), f);
    assert(a == b && (t >= 0real ==> a >= 0real) && (a == 0real ==> t == 0real))
        by (nonlinear_arith)
        requires
            a * n == t,
            b * n == t,
            n > 0real,
    ;
    if a == 0real {
        let x = num(pred[i]) - num(target[i]);
        assert(f(i) == x * x);
        assert(x * x >= 0real) by (nonlinear_arith);
        assert(x == 0real) by (nonlinear_arith)
            requires
                x * x == 0real,
        ;
    }
}

/// The mean squared error times the number of values.
proof fn lemma_mse<A: Arith>(num: spec_fn(A::T) -> real, a: Seq<A::T>, b: Seq<A::T>)
    requires
        exact::<A>(num),
        0 < a.len() <= usize::MAX,
    ensures
        num(mse_of::<A>(a, b)) * (a.len() as real) == total(
            a.len(),
            |k: int| (num(a[k]) - num(b[k])) * (num(a[k]) - num(b[k])),
        ),
{
    lemma_zero_one::<A>(num);
    lemma_squared_distance::<A>(num, a, b, a.len());
    let n = a.len() as real;
    let t = num(squared_distance::<A>(a, b, a.len()));
    let inv = 1real / n;
    assert(num(mse_of::<A>(a, b)) == t * inv) by {
        reveal(exact);
        assert(num(s_count::<A>(a.len() as usize)) == n);
    }
    assert(inv * n == 1real) by (nonlinear_arith)
        requires
            inv == 1real / n,
            n > 0real,
    ;
    lemma_regroups(t, inv, n);
    lemma_neutral(t);
}

/// Exponentials undo logarithms.
#[verifier::opaque]
pub open spec fn exponentials_undo_logarithms<A: Arith>(num: spec_fn(A::T) -> real) -> bool {
    forall|a: A::T, b: A::T|
        #![trigger s_exp::<A>(b), s_ln::<A>(a)]
        num(a) > 0real && num(b) == num(s_ln::<A>(a)) ==> num(s_exp::<A>(b)) == num(a)
}

/// The cross-entropy is the logarithm of a probability: the exponential of its opposite is the
/// probability of the target. Probabilities under 1e-12 count as 1e-12.
pub proof fn losses_are_log_probabilities<A: Arith>(
    num: spec_fn(A::T) -> real,
    logits: Seq<A::T>,
    target: int,
    x: A::T,
)
    requires
        exact::<A>(num),
        exponentials_undo_logarithms::<A>(num),
        0 <= target < logits.len(),
        num(softmax_of::<A>(logits)[target]) >= num(s_lit::<A>(1, 12)) > 0real,
        num(x) + num(cross_entropy_of::<A>(logits, target)) == 0real,
    ensures
        num(s_exp::<A>(x)) == num(softmax_of::<A>(logits)[target]),
{
    let p = softmax_of::<A>(logits)[target];
    let kept = s_larger::<A>(p, s_lit::<A>(1, 12));
    assert(num(kept) == num(p) && num(x) == num(s_ln::<A>(kept))) by {
        reveal(exact);
    }
    reveal(exponentials_undo_logarithms);
    assert(num(s_exp::<A>(x)) == num(kept));
}

/// Values that stand for the same number have the same logarithm.
#[verifier::opaque]
pub open spec fn logarithms_are_functions<A: Arith>(num: spec_fn(A::T) -> real) -> bool {
    forall|a: A::T, b: A::T|
        #![trigger s_ln::<A>(a), s_ln::<A>(b)]
        num(a) == num(b) ==> num(s_ln::<A>(a)) == num(s_ln::<A>(b))
}

/// The entropy of a prediction is the loss to be expected: the mean of the cross-entropies of all
/// targets, each as often as it is predicted.
pub proof fn entropy_is_the_expected_loss<A: Arith>(
    num: spec_fn(A::T) -> real,
    logits: Seq<A::T>,
    n: nat,
)
    requires
        exact::<A>(num),
        logarithms_are_functions::<A>(num),
        n <= logits.len(),
        softmax_of::<A>(logits).len() == logits.len(),
        forall|i: int|
            0 <= i < n ==> num(#[trigger] softmax_of::<A>(logits)[i]) > num(s_lit::<A>(1, 12)),
    ensures
        num(entropy_of::<A>(softmax_of::<A>(logits), n)) == total(
            n,
            |i: int|
                num(softmax_of::<A>(logits)[i]) * num(cross_entropy_of::<A>(logits, i)),
        ),
    decreases n,
{
    lemma_zero_one::<A>(num);
    if n > 0 {
        entropy_is_the_expected_loss::<A>(num, logits, (n - 1) as nat);
        let p = softmax_of::<A>(logits)[n - 1];
        assert(num(p) > num(s_lit::<A>(1, 12)));
        let kept = s_larger::<A>(p, s_lit::<A>(1, 12));
        assert(num(kept) == num(p)) by {
            reveal(exact);
        }
        let (x, l) = (num(p), num(s_ln::<A>(p)));
        assert(num(s_ln::<A>(kept)) == l) by {
            reveal(logarithms_are_functions);
        }
        assert(x * (-l) == -(x * l)) by (nonlinear_arith);
        reveal(exact);
    }
}

/// The weights of the chosen entries are the softmax of their scores. Scores are numbers.
pub proof fn chosen_weights_are_a_softmax<A: Arith>(entries: Seq<Entry<A::T>>)
    requires
        entries.len() > 0,
        forall|i: int|
            0 <= i < entries.len() ==> s_exceeds::<A>(
                (#[trigger] entries[i]).0,
                s_neg_inf::<A>(),
            ),
    ensures
        topk_softmax_of::<A>(entries) == softmax_of::<A>(
            Seq::new(entries.len(), |i: int| entries[i].0),
        ),
{
    lemma_largest_entry::<A>(entries, entries.len());
}

/// The largest score of the first entries.
proof fn lemma_largest_entry<A: Arith>(entries: Seq<Entry<A::T>>, n: nat)
    requires
        1 <= n <= entries.len(),
        forall|i: int|
            0 <= i < entries.len() ==> s_exceeds::<A>(
                (#[trigger] entries[i]).0,
                s_neg_inf::<A>(),
            ),
    ensures
        max_value_of::<A>(entries, n) == max_of::<A>(
            Seq::new(entries.len(), |i: int| entries[i].0),
            n,
        ),
    decreases n,
{
    assert(s_exceeds::<A>(entries[n - 1].0, s_neg_inf::<A>()));
    if n > 1 {
        lemma_largest_entry::<A>(entries, (n - 1) as nat);
    } else {
        assert(max_value_of::<A>(entries, 0) == s_neg_inf::<A>());
    }
}

/// Draws follow the distribution: token `i` is picked for exactly the numbers between the sum of
/// the probabilities before it and the sum with its own, so as often as its probability says.
pub proof fn draws_follow_the_distribution<A: Arith>(
    num: spec_fn(A::T) -> real,
    probs: Seq<A::T>,
    r: A::T,
    i: int,
)
    requires
        exact::<A>(num),
        0 <= i < probs.len(),
        forall|k: int| 0 <= k < probs.len() ==> num(#[trigger] probs[k]) > 0real,
        0real < num(r) <= total(probs.len(), |k: int| num(probs[k])),
    ensures
        picked::<A>(probs, r, 0) == i <==> (total(i as nat, |k: int| num(probs[k])) < num(r)
            <= total((i + 1) as nat, |k: int| num(probs[k]))),
{
    let f = |k: int| num(probs[k]);
    lemma_picked::<A>(num, probs, r, 0);
    let p = picked::<A>(probs, r, 0) as int;
    if p < i {
        lemma_sums_rise::<A>(num, probs, (p + 1) as nat, i as nat);
    } else if p > i {
        lemma_sums_rise::<A>(num, probs, (i + 1) as nat, p as nat);
    }
}

/// Sums of probabilities rise.
proof fn lemma_sums_rise<A: Arith>(
    num: spec_fn(A::T) -> real,
    probs: Seq<A::T>,
    n: nat,
    m: nat,
)
    requires
        n <= m <= probs.len(),
        forall|k: int| 0 <= k < probs.len() ==> num(#[trigger] probs[k]) > 0real,
    ensures
        total(n, |k: int| num(probs[k])) <= total(m, |k: int| num(probs[k])),
    decreases m,
{
    if n < m {
        lemma_sums_rise::<A>(num, probs, n, (m - 1) as nat);
        assert(num(probs[m - 1]) > 0real);
    }
}

/// What is picked from `from` on, where nothing before was reached.
proof fn lemma_picked<A: Arith>(
    num: spec_fn(A::T) -> real,
    probs: Seq<A::T>,
    r: A::T,
    from: nat,
)
    requires
        exact::<A>(num),
        from <= probs.len(),
        total(from, |k: int| num(probs[k])) < num(r) <= total(
            probs.len(),
            |k: int| num(probs[k]),
        ),
    ensures
        ({
            let p = picked::<A>(probs, r, from);
            &&& from <= p < probs.len()
            &&& total(p, |k: int| num(probs[k])) < num(r) <= total(p + 1, |k: int| num(probs[k]))
        }),
    decreases probs.len() - from,
{
    if from < probs.len() {
        lemma_num_sum::<A>(num, probs, from + 1);
        assert(is_reached::<A>(probs, r, from as int) <==> num(r) <= total(
            from + 1,
            |k: int| num(probs[k]),
        )) by {
            reveal(exact);
        }
        if !is_reached::<A>(probs, r, from as int) {
            lemma_picked::<A>(num, probs, r, from + 1);
        }
    }
}

} // verus!
