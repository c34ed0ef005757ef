//! What the optimizers and the learning rates do to a training run, in exact numbers.

use vstd::prelude::*;
use crate::arith::{
    Arith, one, s_cos, s_count, s_lit, s_over, s_powf, s_smaller, s_sqrt, s_times, zero,
};
use crate::exact::{
    exact, lemma_commutes, lemma_distributes, lemma_neutral, lemma_regroups, lemma_total_same,
    lemma_zero_one, power_of_ten, total,
};
use crate::forge_trainer::{AdamWState, clipped, forge_lr_of};
use crate::freezing_trainer::freezing_lr_of;
use crate::gru_trainer::baseline_lr_of;
use crate::optimizer::{
    AdamWConfig, adam_m, adam_p, adam_step_of, adam_v, clip_of, norm_of, squares_added,
    sum_of_all_squares,
};
use crate::tensor::scaled;
use crate::trainer::{
    TrainerConfig, batch_scale, cosine_part, lr_between, lr_of, reported_loss,
};

verus! {

/// `b` to the power of `t`.
pub open spec fn power(b: real, t: nat) -> real
    decreases t,
{
    if t == 0 {
        1real
    } else {
        b * power(b, (t - 1) as nat)
    }
}

/// Powers with whole exponents are products.
pub open spec fn powers_are_exact<A: Arith>(num: spec_fn(A::T) -> real) -> bool {
    forall|a: A::T, n: usize| num(#[trigger] s_powf::<A>(a, s_count::<A>(n))) == power(
        num(a),
        n as nat,
    )
}

/// The absolute value.
pub open spec fn size_of(a: real) -> real {
    if a < 0real {
        -a
    } else {
        a
    }
}

/// Powers of a fraction are fractions.
proof fn lemma_power_of_fraction(b: real, t: nat)
    requires
        0real <= b < 1real,
    ensures
        0real <= power(b, t) <= 1real,
        t > 0 ==> power(b, t) < 1real,
    decreases t,
{
    if t > 0 {
        lemma_power_of_fraction(b, (t - 1) as nat);
        let p = power(b, (t - 1) as nat);
        assert(0real <= b * p <= b) by (nonlinear_arith)
            requires
                0real <= b,
                0real <= p <= 1real,
        ;
    }
}

/// What is divided by a part of itself.
proof fn lemma_share(a: real, part: real, inv: real)
    requires
        part != 0real,
        inv == 1real / part,
    ensures
        (part * a) * inv == a,
        (part * a) / part == a,
{
    assert(part * inv == 1real) by (nonlinear_arith)
        requires
            part != 0real,
            inv == 1real / part,
    ;
    lemma_regroups(part, a, inv);
    lemma_neutral(a);
    let x = part * a;
    assert(x / part == a) by (nonlinear_arith)
        requires
            x == part * a,
            part != 0real,
    ;
}

/// The root of a square.
proof fn lemma_root_of_square<A: Arith>(num: spec_fn(A::T) -> real, x: A::T, a: real)
    requires
        exact::<A>(num),
        num(x) == a * a,
    ensures
        num(s_sqrt::<A>(x)) == size_of(a),
{
    reveal(exact);
    let s = num(s_sqrt::<A>(x));
    assert(a * a >= 0real) by (nonlinear_arith);
    let b = size_of(a);
    assert(b * b == a * a) by (nonlinear_arith)
        requires
            b == a || b == -a,
    ;
    assert(s == b) by (nonlinear_arith)
        requires
            s >= 0real,
            b >= 0real,
            s * s == b * b,
    ;
}

/// One step of an average whose weights fall by `beta`, for a value that stays the same.
proof fn lemma_average(beta: real, a: real, t: nat)
    requires
        t > 0,
    ensures
        beta * ((1real - power(beta, (t - 1) as nat)) * a) + (1real - beta) * a == (1real - power(
            beta,
            t,
        )) * a,
{
    let p = power(beta, (t - 1) as nat);
    lemma_regroups(beta, 1real - p, a);
    lemma_distributes(beta, 1real, p);
    lemma_neutral(beta);
    let (x, y, z) = (beta - beta * p, 1real - beta, 1real - beta * p);
    assert(x + y == z);
    lemma_commutes(x, a);
    lemma_commutes(y, a);
    lemma_commutes(z, a);
    lemma_distributes(a, x, y);
}

/// A gradient that stays the same is followed exactly, however short the run: the bias correction
/// makes the moments those of the gradient, so that every step moves a parameter by the learning
/// rate times the gradient over its size, and by the decay. The moments before step `t` are those
/// that `t - 1` such gradients leave behind.
pub proof fn steady_gradients_are_followed<A: Arith>(
    num: spec_fn(A::T) -> real,
    config: AdamWConfig<A>,
    norm: A::T,
    t: usize,
    lr: A::T,
    p: A::T,
    g: A::T,
    m: A::T,
    v: A::T,
)
    requires
        exact::<A>(num),
        powers_are_exact::<A>(num),
        t > 0,
        0real <= num(config.beta1) < 1real,
        0real <= num(config.beta2) < 1real,
        num(config.eps) > 0real,
        ({
            let a = num(g) * num(clip_of::<A>(norm, config.max_grad_norm));
            &&& num(m) == (1real - power(num(config.beta1), (t - 1) as nat)) * a
            &&& num(v) == (1real - power(num(config.beta2), (t - 1) as nat)) * (a * a)
        }),
    ensures
        ({
            let a = num(g) * num(clip_of::<A>(norm, config.max_grad_norm));
            let s = adam_step_of::<A>(config, norm, t, lr);
            &&& num(adam_m::<A>(s, g, m)) == (1real - power(num(config.beta1), t as nat)) * a
            &&& num(adam_v::<A>(s, g, v)) == (1real - power(num(config.beta2), t as nat)) * (a * a)
            &&& num(adam_p::<A>(s, p, g, m, v)) == num(p) - num(lr) * (a / (size_of(a) + num(
                config.eps,
            )) + num(config.weight_decay) * num(p))
        }),
{
    lemma_zero_one::<A>(num);
    let s = adam_step_of::<A>(config, norm, t, lr);
    let (b1, b2) = (num(config.beta1), num(config.beta2));
    let a = num(g) * num(clip_of::<A>(norm, config.max_grad_norm));
    lemma_power_of_fraction(b1, t as nat);
    lemma_power_of_fraction(b2, t as nat);
    let (c1, c2) = (1real - power(b1, t as nat), 1real - power(b2, t as nat));
    lemma_average(b1, a, t as nat);
    lemma_average(b2, a * a, t as nat);
    lemma_regroups(1real - b2, a, a);
    let (m1, v1) = (adam_m::<A>(s, g, m), adam_v::<A>(s, g, v));
    assert(num(m1) == c1 * a && num(v1) == c2 * (a * a)) by {
        reveal(exact);
    }
    assert(num(s.inv_bc1) == 1real / c1 && num(s.inv_bc2) == 1real / c2) by {
        reveal(exact);
    }
    lemma_share(a, c1, 1real / c1);
    lemma_share(a * a, c2, 1real / c2);
    let v_hat = s_times::<A>(v1, s.inv_bc2);
    assert(num(v_hat) == a * a) by {
        reveal(exact);
    }
    lemma_root_of_square::<A>(num, v_hat, a);
    reveal(exact);
}

/// The same of the optimizer of the FORGE trainer: its state before the step is that which
/// `step` equal gradients leave behind.
pub proof fn forge_follows_steady_gradients<A: Arith>(
    num: spec_fn(A::T) -> real,
    state: AdamWState<A>,
    p: A::T,
    g: A::T,
    lr: A::T,
    i: int,
)
    requires
        exact::<A>(num),
        powers_are_exact::<A>(num),
        state.step < usize::MAX,
        0real <= num(state.beta1) < 1real,
        0real <= num(state.beta2) < 1real,
        num(state.eps) > 0real,
        num(state.m@[i]) == (1real - power(num(state.beta1), state.step as nat)) * num(g),
        num(state.v@[i]) == (1real - power(num(state.beta2), state.step as nat)) * (num(g) * num(
            g,
        )),
    ensures
        num(state.m_after(g, i)) == (1real - power(num(state.beta1), (state.step + 1) as nat))
            * num(g),
        num(state.v_after(g, i)) == (1real - power(num(state.beta2), (state.step + 1) as nat)) * (
        num(g) * num(g)),
        num(state.p_after(p, g, lr, i)) == num(p) - num(lr) * (num(g) / (size_of(num(g)) + num(
            state.eps,
        )) + num(state.weight_decay) * num(p)),
{
    lemma_zero_one::<A>(num);
    let (b1, b2) = (num(state.beta1), num(state.beta2));
    let a = num(g);
    let t = (state.step + 1) as nat;
    lemma_power_of_fraction(b1, t);
    lemma_power_of_fraction(b2, t);
    let (c1, c2) = (1real - power(b1, t), 1real - power(b2, t));
    lemma_average(b1, a, t);
    lemma_average(b2, a * a, t);
    lemma_regroups(1real - b2, a, a);
    let (m1, v1) = (state.m_after(g, i), state.v_after(g, i));
    assert(num(m1) == c1 * a && num(v1) == c2 * (a * a)) by {
        reveal(exact);
    }
    assert(num(state.bias(state.beta1)) == c1 && num(state.bias(state.beta2)) == c2) by {
        reveal(exact);
    }
    lemma_share(a, c1, 1real / c1);
    lemma_share(a * a, c2, 1real / c2);
    let v_hat = s_over::<A>(v1, state.bias(state.beta2));
    assert(num(v_hat) == a * a) by {
        reveal(exact);
    }
    lemma_root_of_square::<A>(num, v_hat, a);
    reveal(exact);
}

/// The sum of the squares of some values.
pub open spec fn squares<A: Arith>(num: spec_fn(A::T) -> real, values: Seq<A::T>) -> real {
    total(values.len(), |i: int| num(values[i]) * num(values[i]))
}

/// Squares added one by one.
proof fn lemma_squares_added<A: Arith>(
    num: spec_fn(A::T) -> real,
    start: A::T,
    values: Seq<A::T>,
    n: nat,
)
    requires
        exact::<A>(num),
        n <= values.len(),
    ensures
        num(squares_added::<A>(start, values, n)) == num(start) + total(
            n,
            |i: int| num(values[i]) * num(values[i]),
        ),
    decreases n,
{
    reveal(exact);
    if n > 0 {
        lemma_squares_added::<A>(num, start, values, (n - 1) as nat);
    }
}

/// Squares are not negative, nor are their sums.
proof fn lemma_squares_not_negative(n: nat, f: spec_fn(int) -> real)
    ensures
        total(n, |i: int| f(i) * f(i)) >= 0real,
    decreases n,
{
    if n > 0 {
        lemma_squares_not_negative((n - 1) as nat, f);
        let x = f(n - 1);
        assert(x * x >= 0real) by (nonlinear_arith);
    }
}

/// The norm of the gradients is their length: its square is the sum of all their squares.
pub proof fn norms_are_lengths<A: Arith>(num: spec_fn(A::T) -> real, parts: Seq<Seq<A::T>>)
    requires
        exact::<A>(num),
    ensures
        num(norm_of::<A>(parts)) >= 0real,
        num(norm_of::<A>(parts)) * num(norm_of::<A>(parts)) == total(
            parts.len(),
            |k: int| squares::<A>(num, parts[k]),
        ),
{
    lemma_all_squares::<A>(num, parts);
    reveal(exact);
}

/// The squares of several buffers.
proof fn lemma_all_squares<A: Arith>(num: spec_fn(A::T) -> real, parts: Seq<Seq<A::T>>)
    requires
        exact::<A>(num),
    ensures
        num(sum_of_all_squares::<A>(parts)) == total(
            parts.len(),
            |k: int| squares::<A>(num, parts[k]),
        ),
        num(sum_of_all_squares::<A>(parts)) >= 0real,
    decreases parts.len(),
{
    lemma_zero_one::<A>(num);
    if parts.len() > 0 {
        let before = parts.drop_last();
        let n = before.len();
        lemma_all_squares::<A>(num, before);
        lemma_squares_added::<A>(
            num,
            sum_of_all_squares::<A>(before),
            parts.last(),
            parts.last().len(),
        );
        let values = parts.last();
        lemma_squares_not_negative(values.len(), |i: int| num(values[i]));
        lemma_total_same(
            values.len(),
            |i: int| num(values[i]) * num(values[i]),
            |i: int| (|j: int| num(values[j]))(i) * (|j: int| num(values[j]))(i),
        );
        let f = |k: int| squares::<A>(num, parts[k]);
        let g = |k: int| squares::<A>(num, before[k]);
        assert forall|k: int| 0 <= k < n implies #[trigger] f(k) == g(k) by {
            assert(before[k] == parts[k]);
        }
        lemma_total_same(n, f, g);
    }
}

/// Clipping brings a norm above the limit to the limit exactly, and leaves the others as they are.
pub proof fn clipping_stops_at_the_limit<A: Arith>(
    num: spec_fn(A::T) -> real,
    norm: A::T,
    limit: A::T,
)
    requires
        exact::<A>(num),
        num(norm) > num(limit) ==> num(norm) > num(s_lit::<A>(1, 8)),
    ensures
        num(norm) > num(limit) && num(norm) != 0real ==> num(norm) * num(
            clip_of::<A>(norm, limit),
        ) == num(limit),
        num(norm) <= num(limit) ==> num(norm) * num(clip_of::<A>(norm, limit)) == num(norm),
{
    reveal(exact);
    lemma_zero_one::<A>(num);
    lemma_neutral(num(norm));
    let (n, l) = (num(norm), num(limit));
    if n > l && n != 0real {
        let q = l / n;
        assert(n * q == l) by (nonlinear_arith)
            requires
                n != 0real,
                q == l / n,
        ;
    }
}

/// A batch's sums become means over its tokens, and the loss that is reported is the mean over its
/// sequences.
pub proof fn batches_are_averaged<A: Arith>(
    num: spec_fn(A::T) -> real,
    loss: A::T,
    batch_size: usize,
    seq_len: usize,
)
    requires
        exact::<A>(num),
        0 < batch_size * seq_len <= usize::MAX,
    ensures
        num(batch_scale::<A>(batch_size, seq_len)) * ((batch_size * seq_len) as real) == 1real,
        num(reported_loss::<A>(loss, batch_size, seq_len)) * (batch_size as real) == num(loss),
{
    reveal(exact);
    lemma_zero_one::<A>(num);
    let (b, s) = (batch_size as real, seq_len as real);
    let n = (batch_size * seq_len) as real;
    let k = num(batch_scale::<A>(batch_size, seq_len));
    assert(k == 1real / n);
    assert(k * n == 1real) by (nonlinear_arith)
        requires
            n > 0real,
            k == 1real / n,
    ;
    assert(n == b * s) by {
        let (bi, si) = (batch_size as int, seq_len as int);
        assert((bi * si) as real == (bi as real) * (si as real)) by (nonlinear_arith);
    }
    let x = num(loss);
    lemma_regroups(x * k, s, b);
    lemma_commutes(s, b);
    lemma_regroups(x, k, n);
    lemma_neutral(x);
}

/// The gradients that the FORGE trainer clips keep their direction: all are multiplied by one
/// factor, which brings their norm to the limit where it was above it.
pub proof fn forge_clips_all_alike<A: Arith>(
    num: spec_fn(A::T) -> real,
    parts: Seq<Seq<A::T>>,
    limit: A::T,
    k: int,
    i: int,
)
    requires
        exact::<A>(num),
        0 <= k < parts.len(),
        0 <= i < parts[k].len(),
        num(norm_of::<A>(parts)) > num(limit) ==> num(norm_of::<A>(parts)) > num(s_lit::<A>(1, 9)),
        num(norm_of::<A>(parts)) > 0real,
    ensures
        clipped::<A>(parts, limit).len() == parts.len(),
        clipped::<A>(parts, limit)[k].len() == parts[k].len(),
        num(clipped::<A>(parts, limit)[k][i]) * num(norm_of::<A>(parts)) == num(parts[k][i]) * (
        if num(norm_of::<A>(parts)) > num(limit) {
            num(limit)
        } else {
            num(norm_of::<A>(parts))
        }),
{
    reveal(exact);
    let (n, l, x) = (num(norm_of::<A>(parts)), num(limit), num(parts[k][i]));
    let q = l / n;
    assert(q * n == l) by (nonlinear_arith)
        requires
            n > 0real,
            q == l / n,
    ;
    lemma_regroups(x, q, n);
    if n > l {
        assert(clipped::<A>(parts, limit)[k] == scaled::<A>(
            parts[k],
            s_over::<A>(limit, norm_of::<A>(parts)),
        ));
    }
}

/// Half of a turn.
pub open spec fn half_turn<A: Arith>() -> A::T {
    s_lit::<A>(3141592653589793238, 18)
}

/// The cosine falls from one to minus one in half of a turn, the same way on both sides of its
/// middle.
#[verifier::opaque]
pub open spec fn cosine_falls<A: Arith>(num: spec_fn(A::T) -> real) -> bool {
    &&& forall|a: A::T| num(a) == 0real ==> num(#[trigger] s_cos::<A>(a)) == 1real
    &&& forall|a: A::T|
        num(a) == num(half_turn::<A>()) ==> num(#[trigger] s_cos::<A>(a)) == -1real
    &&& forall|a: A::T, b: A::T|
        #![trigger s_cos::<A>(a), s_cos::<A>(b)]
        0real <= num(a) <= num(b) <= num(half_turn::<A>()) ==> num(s_cos::<A>(b)) <= num(
            s_cos::<A>(a),
        )
    &&& forall|a: A::T, b: A::T|
        #![trigger s_cos::<A>(a), s_cos::<A>(b)]
        num(a) + num(b) == num(half_turn::<A>()) ==> num(s_cos::<A>(a)) + num(s_cos::<A>(b))
            == 0real
}

/// Half of a turn is positive, and one half is one half.
proof fn lemma_half<A: Arith>(num: spec_fn(A::T) -> real)
    requires
        exact::<A>(num),
    ensures
        num(half_turn::<A>()) > 0real,
        num(s_lit::<A>(5, 1)) * 2real == 1real,
{
    reveal(exact);
    reveal_with_fuel(power_of_ten, 19);
    assert(power_of_ten(18) == 1000000000000000000);
    assert(power_of_ten(1) == 10);
    let (pi, half) = (num(half_turn::<A>()), num(s_lit::<A>(5, 1)));
    assert(pi * (power_of_ten(18) as real) == 3141592653589793238u64 as real);
    assert(pi * 1000000000000000000real == 3141592653589793238real);
    assert(half * (power_of_ten(1) as real) == 5u64 as real);
    assert(half * 10real == 5real);
}

/// What is left of the learning rate after some steps of decay.
proof fn lemma_cosine_part<A: Arith>(
    num: spec_fn(A::T) -> real,
    early: usize,
    late: usize,
    span: usize,
)
    requires
        exact::<A>(num),
        cosine_falls::<A>(num),
        0 < span,
        early <= late,
    ensures
        0real <= num(cosine_part::<A>(late, span)) <= num(cosine_part::<A>(early, span)) <= 1real,
        num(cosine_part::<A>(0, span)) == 1real,
        late >= span ==> num(cosine_part::<A>(late, span)) == 0real,
        early + late == span ==> num(cosine_part::<A>(early, span)) + num(
            cosine_part::<A>(late, span),
        ) == 1real,
{
    lemma_zero_one::<A>(num);
    lemma_half::<A>(num);
    let pi = num(half_turn::<A>());
    let progress = |k: usize|
        s_smaller::<A>(s_over::<A>(s_count::<A>(k), s_count::<A>(span)), one::<A>());
    let turned = |k: usize| s_times::<A>(half_turn::<A>(), progress(k));
    let n = span as real;
    assert forall|k: usize| #[trigger] num(progress(k)) * n == (if k < span {
        k as real
    } else {
        n
    }) by {
        reveal(exact);
        let x = k as real;
        let q = x / n;
        assert(q * n == x && (x < n ==> q < 1real) && (x >= n ==> q >= 1real)) by (nonlinear_arith)
            requires
                n > 0real,
                q == x / n,
        ;
        lemma_neutral(n);
    }
    assert forall|k: usize| num(#[trigger] turned(k)) == pi * num(progress(k)) by {
        reveal(exact);
    }
    let (a, b, c) = (num(progress(0)), num(progress(early)), num(progress(late)));
    let (x, y) = (
        (if early < span {
            early as real
        } else {
            n
        }),
        (if late < span {
            late as real
        } else {
            n
        }),
    );
    assert(a == 0real) by (nonlinear_arith)
        requires
            a * n == 0real,
            n > 0real,
    ;
    assert(0real <= b <= c <= 1real) by (nonlinear_arith)
        requires
            b * n == x,
            c * n == y,
            0real <= x <= y <= n,
            n > 0real,
    ;
    assert(0real <= pi * b <= pi * c <= pi) by (nonlinear_arith)
        requires
            0real <= b <= c <= 1real,
            pi > 0real,
    ;
    lemma_neutral(pi);
    if late >= span {
        assert(c == 1real) by (nonlinear_arith)
            requires
                c * n == n,
                n > 0real,
        ;
    }
    if early + late == span {
        assert(b + c == 1real) by (nonlinear_arith)
            requires
                b * n == x,
                c * n == y,
                x + y == n,
                n > 0real,
        ;
        lemma_distributes(pi, b, c);
    }
    let (s0, s1, s2) = (
        s_cos::<A>(turned(0)),
        s_cos::<A>(turned(early)),
        s_cos::<A>(turned(late)),
    );
    let zero_angle = s_times::<A>(half_turn::<A>(), zero::<A>());
    let full_angle = s_times::<A>(half_turn::<A>(), one::<A>());
    assert(num(zero_angle) == 0real && num(full_angle) == pi) by {
        reveal(exact);
    }
    assert(-1real <= num(s2) <= num(s1) <= 1real && num(s0) == 1real && (late >= span ==> num(s2)
        == -1real) && (early + late == span ==> num(s1) + num(s2) == 0real)) by {
        reveal(cosine_falls);
        assert(num(s_cos::<A>(zero_angle)) == 1real);
        assert(num(s_cos::<A>(full_angle)) == -1real);
    }
    let half = num(s_lit::<A>(5, 1));
    assert(forall|k: usize|
        num(#[trigger] cosine_part::<A>(k, span)) == half * (1real + num(s_cos::<A>(turned(k)))))
        by {
        reveal(exact);
    }
    assert(num(cosine_part::<A>(0, span)) == half * (1real + num(s0)));
    assert(num(cosine_part::<A>(early, span)) == half * (1real + num(s1)));
    assert(num(cosine_part::<A>(late, span)) == half * (1real + num(s2)));
    assert(half == 1real / 2real);
}

/// A learning rate at some part of the way.
proof fn lemma_between<A: Arith>(num: spec_fn(A::T) -> real, low: A::T, high: A::T, part: A::T)
    requires
        exact::<A>(num),
    ensures
        num(lr_between::<A>(low, high, part)) == num(low) + num(part) * (num(high) - num(low)),
{
    reveal(exact);
}

/// The learning rate warms up evenly: it starts at the lowest, reaches the highest when the warmup
/// is over, and rises by the same amount in every step on the way.
pub proof fn the_rate_warms_up_evenly<A: Arith>(
    num: spec_fn(A::T) -> real,
    step: usize,
    warmup: usize,
    span: usize,
    low: A::T,
    high: A::T,
)
    requires
        exact::<A>(num),
        cosine_falls::<A>(num),
        step < warmup,
        span > 0,
    ensures
        num(lr_of::<A>(0, warmup, span, low, high)) == num(low),
        num(lr_of::<A>(warmup, warmup, span, low, high)) == num(high),
        (num(lr_of::<A>((step + 1) as usize, warmup, span, low, high)) - num(
            lr_of::<A>(step, warmup, span, low, high),
        )) * (warmup as real) == num(high) - num(low),
{
    lemma_zero_one::<A>(num);
    lemma_cosine_part::<A>(num, 0, 0, span);
    let n = warmup as real;
    let d = num(high) - num(low);
    let next = (step + 1) as usize;
    let part = |k: usize| s_over::<A>(s_count::<A>(k), s_count::<A>(warmup));
    lemma_between::<A>(num, low, high, part(0));
    lemma_between::<A>(num, low, high, part(step));
    lemma_between::<A>(num, low, high, part(next));
    lemma_between::<A>(num, low, high, cosine_part::<A>(0, span));
    let (p0, p1) = (num(part(0)), num(part(step)));
    let p2 = if next < warmup {
        num(part(next))
    } else {
        1real
    };
    let (x, y) = (step as real, next as real);
    assert(num(part(0)) == 0real / n && num(part(step)) == x / n && num(part(next)) == y / n) by {
        reveal(exact);
    }
    assert(p0 == 0real) by (nonlinear_arith)
        requires
            p0 == 0real / n,
            n > 0real,
    ;
    assert(p1 * n == x) by (nonlinear_arith)
        requires
            p1 == x / n,
            n > 0real,
    ;
    if next < warmup {
        assert(p2 * n == y) by (nonlinear_arith)
            requires
                p2 == y / n,
                n > 0real,
        ;
    } else {
        lemma_neutral(n);
        assert(p2 * n == y);
    }
    lemma_neutral(d);
    lemma_commutes(p2, d);
    lemma_commutes(p1, d);
    lemma_distributes(d, p2, p1);
    lemma_regroups(d, p2 - p1, n);
    lemma_commutes(p2 - p1, n);
    lemma_distributes(n, p2, p1);
    lemma_commutes(n, p2);
    lemma_commutes(n, p1);
}

/// After the warmup the learning rate never rises, stays between the lowest and the highest, ends
/// at the lowest, and falls the same way before and after the middle of the decay.
pub proof fn the_rate_decays<A: Arith>(
    num: spec_fn(A::T) -> real,
    early: usize,
    late: usize,
    warmup: usize,
    span: usize,
    low: A::T,
    high: A::T,
)
    requires
        exact::<A>(num),
        cosine_falls::<A>(num),
        warmup <= early <= late,
        span > 0,
        num(low) <= num(high),
    ensures
        num(low) <= num(lr_of::<A>(late, warmup, span, low, high)) <= num(
            lr_of::<A>(early, warmup, span, low, high),
        ) <= num(high),
        late - warmup >= span ==> num(lr_of::<A>(late, warmup, span, low, high)) == num(low),
        (early - warmup) + (late - warmup) == span ==> num(
            lr_of::<A>(early, warmup, span, low, high),
        ) + num(lr_of::<A>(late, warmup, span, low, high)) == num(low) + num(high),
{
    let (k, l) = ((early - warmup) as usize, (late - warmup) as usize);
    lemma_cosine_part::<A>(num, k, l, span);
    let (a, b) = (num(cosine_part::<A>(k, span)), num(cosine_part::<A>(l, span)));
    lemma_between::<A>(num, low, high, cosine_part::<A>(k, span));
    lemma_between::<A>(num, low, high, cosine_part::<A>(l, span));
    let d = num(high) - num(low);
    assert(0real <= b * d <= a * d <= d) by (nonlinear_arith)
        requires
            0real <= b <= a <= 1real,
            d >= 0real,
    ;
    lemma_neutral(d);
    lemma_commutes(a, d);
    lemma_commutes(b, d);
    lemma_distributes(d, a, b);
}

/// A run of any length peaks at its highest learning rate when its warmup is over, and has come
/// down to its lowest when it ends.
pub proof fn runs_end_at_the_lowest_rate<A: Arith>(
    num: spec_fn(A::T) -> real,
    config: TrainerConfig<A>,
    max_steps: usize,
    base_lr: A::T,
)
    requires
        exact::<A>(num),
        cosine_falls::<A>(num),
        max_steps > 100,
        config.max_steps > config.warmup_steps,
        num(config.min_lr) <= num(config.base_lr),
        num(s_lit::<A>(1, 4)) <= num(base_lr),
        num(s_lit::<A>(1, 4)) <= num(s_lit::<A>(5, 3)),
    ensures
        num(config.lr_at(config.warmup_steps)) == num(config.base_lr),
        num(config.lr_at(config.max_steps)) == num(config.min_lr),
        num(baseline_lr_of::<A>(100, max_steps, base_lr)) == num(base_lr),
        num(baseline_lr_of::<A>(max_steps, max_steps, base_lr)) == num(s_lit::<A>(1, 4)),
        num(freezing_lr_of::<A>(25, max_steps)) == num(s_lit::<A>(5, 3)),
        num(freezing_lr_of::<A>(max_steps, max_steps)) == num(s_lit::<A>(1, 4)),
{
    let (w, m) = (config.warmup_steps, config.max_steps);
    let span = (m - w) as usize;
    the_rate_decays::<A>(num, w, m, w, span, config.min_lr, config.base_lr);
    lemma_peak::<A>(num, w, span, config.min_lr, config.base_lr);
    let low = s_lit::<A>(1, 4);
    let rest = (max_steps - 100) as usize;
    the_rate_decays::<A>(num, 100, max_steps, 100, rest, low, base_lr);
    lemma_peak::<A>(num, 100, rest, low, base_lr);
    let left = (max_steps - 25) as usize;
    the_rate_decays::<A>(num, 25, max_steps, 25, left, low, s_lit::<A>(5, 3));
    lemma_peak::<A>(num, 25, left, low, s_lit::<A>(5, 3));
}

/// The first step of the decay has the highest learning rate.
proof fn lemma_peak<A: Arith>(
    num: spec_fn(A::T) -> real,
    warmup: usize,
    span: usize,
    low: A::T,
    high: A::T,
)
    requires
        exact::<A>(num),
        cosine_falls::<A>(num),
        span > 0,
    ensures
        num(lr_of::<A>(warmup, warmup, span, low, high)) == num(high),
{
    lemma_cosine_part::<A>(num, 0, 0, span);
    lemma_between::<A>(num, low, high, cosine_part::<A>(0, span));
    lemma_neutral(num(high) - num(low));
}

/// The learning rate of a FORGE run rises evenly from nothing to its base in fifty steps, never
/// rises after that, and ends at 1e-5.
pub proof fn forge_rates_rise_and_fall<A: Arith>(
    num: spec_fn(A::T) -> real,
    early: usize,
    late: usize,
    max_steps: usize,
    base_lr: A::T,
)
    requires
        exact::<A>(num),
        cosine_falls::<A>(num),
        early <= late <= max_steps,
        max_steps > 50,
        num(s_lit::<A>(1, 5)) <= num(base_lr),
    ensures
        num(forge_lr_of::<A>(0, max_steps, base_lr)) == 0real,
        num(forge_lr_of::<A>(50, max_steps, base_lr)) == num(base_lr),
        num(forge_lr_of::<A>(max_steps, max_steps, base_lr)) == num(s_lit::<A>(1, 5)),
        late < 50 ==> (num(forge_lr_of::<A>(late, max_steps, base_lr)) - num(
            forge_lr_of::<A>(early, max_steps, base_lr),
        )) * 50real == num(base_lr) * ((late - early) as real),
        early >= 50 ==> num(forge_lr_of::<A>(late, max_steps, base_lr)) <= num(
            forge_lr_of::<A>(early, max_steps, base_lr),
        ),
{
    lemma_zero_one::<A>(num);
    lemma_half::<A>(num);
    let b = num(base_lr);
    let floor = num(s_lit::<A>(1, 5));
    let pi = num(half_turn::<A>());
    let span = (max_steps - 50) as usize;
    let n = span as real;
    lemma_neutral(b);
    if late < 50 {
        let (x, y) = (early as real, late as real);
        assert(num(forge_lr_of::<A>(early, max_steps, base_lr)) == (b * x) / 50real && num(
            forge_lr_of::<A>(late, max_steps, base_lr),
        ) == (b * y) / 50real) by {
            reveal(exact);
        }
        lemma_distributes(b, y, x);
        assert((late - early) as real == y - x);
    }
    assert(num(forge_lr_of::<A>(0, max_steps, base_lr)) == 0real) by {
        reveal(exact);
        assert(num(s_count::<A>(0)) == 0real);
    }
    let part = |k: usize| s_over::<A>(s_count::<A>((k - 50) as usize), s_count::<A>(span));
    let turned = |k: usize| s_times::<A>(half_turn::<A>(), part(k));
    let half = num(s_lit::<A>(5, 1));
    assert forall|k: usize| 50 <= k <= max_steps implies #[trigger] num(
        forge_lr_of::<A>(k, max_steps, base_lr),
    ) == floor + (half * (1real + num(s_cos::<A>(turned(k))))) * (b - floor) by {
        reveal(exact);
    }
    let (e, l) = (
        (if early < 50 {
            50
        } else {
            early
        }),
        (if late < 50 {
            50
        } else {
            late
        }),
    );
    let (q0, q1, q2, q3) = (num(part(50)), num(part(e)), num(part(l)), num(part(max_steps)));
    let (x, y) = ((e - 50) as real, (l - 50) as real);
    assert(q0 == 0real / n && q1 == x / n && q2 == y / n && q3 == n / n) by {
        reveal(exact);
    }
    assert(q0 == 0real && q3 == 1real) by (nonlinear_arith)
        requires
            q0 == 0real / n,
            q3 == n / n,
            n > 0real,
    ;
    assert(q1 * n == x && q2 * n == y) by (nonlinear_arith)
        requires
            q1 == x / n,
            q2 == y / n,
            n > 0real,
    ;
    assert(0real <= q1 <= q2 <= 1real) by (nonlinear_arith)
        requires
            q1 * n == x,
            q2 * n == y,
            0real <= x <= y <= n,
            n > 0real,
    ;
    assert(0real <= pi * q1 <= pi * q2 <= pi) by (nonlinear_arith)
        requires
            0real <= q1 <= q2 <= 1real,
            pi > 0real,
    ;
    lemma_neutral(pi);
    assert(num(turned(50)) == 0real && num(turned(e)) == pi * q1 && num(turned(l)) == pi * q2
        && num(turned(max_steps)) == pi) by {
        reveal(exact);
    }
    let (c1, c2) = (num(s_cos::<A>(turned(e))), num(s_cos::<A>(turned(l))));
    assert(num(s_cos::<A>(turned(50))) == 1real && num(s_cos::<A>(turned(max_steps))) == -1real
        && c2 <= c1) by {
        reveal(cosine_falls);
    }
    let d = b - floor;
    lemma_neutral(d);
    assert(half == 1real / 2real);
    let (u, v) = (half * (1real + c1), half * (1real + c2));
    assert(v * d <= u * d) by (nonlinear_arith)
        requires
            v <= u,
            d >= 0real,
    ;
}

} // verus!
