//! What the memories hold and give back, in exact numbers.

use vstd::prelude::*;
use crate::activations::{sigmoid_of, squared_distance};
use crate::arith::{
    Arith, s_exp, s_larger, s_lit, s_minus, s_neg_inf, s_negate, s_over, s_sqrt, s_times, zero,
};
use crate::exact::{
    exact, lemma_commutes, lemma_distributes, lemma_neutral, lemma_num_dot, lemma_regroups,
    lemma_total_plus, lemma_total_times, lemma_zero_one, power_of_ten, total,
};
use crate::exact_laws::softmax_follows_the_logits;
use crate::hebbian::{frobenius_of, hebbian_of, hebbian_row, oja_error, sum_of_squares};
use crate::matvec::{matvec_of, outer_added, outer_row};
use crate::memory_backward::is_live;
use crate::mrm::{
    MrmValues, averaged, bank_scores, gate_of, nearest_of, recalled, slot_score,
};
use crate::tensor::{dot_of, lemma_matrix_row, lemma_row_bounds, row_of, zeros};
use crate::training_laws::squares;

verus! {

/// The inner product of two vectors.
pub open spec fn inner<A: Arith>(
    num: spec_fn(A::T) -> real,
    a: Seq<A::T>,
    b: Seq<A::T>,
) -> real {
    total(a.len(), |i: int| num(a[i]) * num(b[i]))
}

/// The inner product with a mix of two vectors.
proof fn lemma_inner_of_mix<A: Arith>(
    num: spec_fn(A::T) -> real,
    mix: Seq<A::T>,
    k: real,
    a: Seq<A::T>,
    s: real,
    b: Seq<A::T>,
    q: Seq<A::T>,
)
    requires
        mix.len() == q.len(),
        a.len() == q.len(),
        b.len() == q.len(),
        forall|i: int|
            0 <= i < mix.len() ==> num(#[trigger] mix[i]) == k * num(a[i]) + s * num(b[i]),
    ensures
        inner::<A>(num, mix, q) == k * inner::<A>(num, a, q) + s * inner::<A>(num, b, q),
{
    let n = q.len();
    let f = |i: int| num(a[i]) * num(q[i]);
    let g = |i: int| num(b[i]) * num(q[i]);
    let kf = |i: int| k * f(i);
    let sg = |i: int| s * g(i);
    let h = |i: int| num(mix[i]) * num(q[i]);
    assert forall|i: int| 0 <= i < n implies #[trigger] h(i) == kf(i) + sg(i) by {
        assert(num(mix[i]) == k * num(a[i]) + s * num(b[i]));
        let (x, y, z) = (k * num(a[i]), s * num(b[i]), num(q[i]));
        lemma_commutes(x + y, z);
        lemma_distributes(z, x, y);
        lemma_commutes(z, x);
        lemma_commutes(z, y);
        lemma_regroups(k, num(a[i]), z);
        lemma_regroups(s, num(b[i]), z);
    }
    lemma_total_plus(n, kf, sg, h);
    lemma_total_times(n, k, f, kf);
    lemma_total_times(n, s, g, sg);
}

/// What is written is recalled: after a Hebbian write of `h`, a query recalls what it did before,
/// decayed, and `h` as strongly as the query matches it.
pub proof fn writes_are_recalled<A: Arith>(
    num: spec_fn(A::T) -> real,
    m: Seq<A::T>,
    h: Seq<A::T>,
    q: Seq<A::T>,
    decay: A::T,
    lr: A::T,
    r: int,
)
    requires
        exact::<A>(num),
        m.len() == h.len() * h.len(),
        q.len() == h.len(),
        0 <= r < h.len(),
    ensures
        num(matvec_of::<A>(hebbian_of::<A>(m, h, decay, lr), h.len(), q)[r]) == num(decay) * num(
            matvec_of::<A>(m, h.len(), q)[r],
        ) + (num(lr) * inner::<A>(num, h, q)) * num(h[r]),
{
    let d = h.len();
    let after = hebbian_of::<A>(m, h, decay, lr);
    let (row, new_row) = (row_of(m, d, r), row_of(after, d, r));
    lemma_row_bounds(d, d, r);
    lemma_matrix_row(d, d, |r: int, c: int| hebbian_row::<A>(m, h, decay, lr, r)[c], r);
    lemma_num_dot::<A>(num, row, q);
    lemma_num_dot::<A>(num, new_row, q);
    let s = num(lr) * num(h[r]);
    assert forall|c: int| 0 <= c < d implies num(#[trigger] new_row[c]) == num(decay) * num(row[c])
        + s * num(h[c]) by {
        reveal(exact);
        assert(new_row[c] == hebbian_row::<A>(m, h, decay, lr, r)[c]);
    }
    lemma_inner_of_mix::<A>(num, new_row, num(decay), row, s, h, q);
    lemma_regroups(num(lr), num(h[r]), inner::<A>(num, h, q));
}

/// Oja's rule learns what the memory lacks: after it a query recalls, besides what it did before,
/// what the memory got wrong of `h`, as strongly as the query matches `h`; what it gets wrong of
/// `h` itself shrinks.
pub proof fn oja_learns_what_is_missing<A: Arith>(
    num: spec_fn(A::T) -> real,
    m: Seq<A::T>,
    h: Seq<A::T>,
    q: Seq<A::T>,
    lr: A::T,
    r: int,
)
    requires
        exact::<A>(num),
        m.len() == h.len() * h.len(),
        q.len() == h.len(),
        0 <= r < h.len(),
    ensures
        ({
            let after = outer_added::<A>(m, oja_error::<A>(m, h), h, lr);
            &&& num(matvec_of::<A>(after, h.len(), q)[r]) == num(matvec_of::<A>(m, h.len(), q)[r])
                + (num(lr) * inner::<A>(num, h, q)) * (num(h[r]) - num(
                matvec_of::<A>(m, h.len(), h)[r],
            ))
            &&& num(oja_error::<A>(after, h)[r]) == (1real - num(lr) * inner::<A>(num, h, h)) * num(
                oja_error::<A>(m, h)[r],
            )
        }),
{
    lemma_oja::<A>(num, m, h, q, lr, r);
    lemma_oja::<A>(num, m, h, h, lr, r);
    reveal(exact);
    let k = num(lr) * inner::<A>(num, h, h);
    let e = num(oja_error::<A>(m, h)[r]);
    lemma_commutes(1real - k, e);
    lemma_distributes(e, 1real, k);
    lemma_neutral(e);
    lemma_commutes(e, k);
}

/// What a query recalls after Oja's rule.
proof fn lemma_oja<A: Arith>(
    num: spec_fn(A::T) -> real,
    m: Seq<A::T>,
    h: Seq<A::T>,
    q: Seq<A::T>,
    lr: A::T,
    r: int,
)
    requires
        exact::<A>(num),
        m.len() == h.len() * h.len(),
        q.len() == h.len(),
        0 <= r < h.len(),
    ensures
        num(
            matvec_of::<A>(
                outer_added::<A>(m, oja_error::<A>(m, h), h, lr),
                h.len(),
                q,
            )[r],
        ) == num(matvec_of::<A>(m, h.len(), q)[r]) + (num(lr) * inner::<A>(num, h, q)) * (num(h[r])
            - num(matvec_of::<A>(m, h.len(), h)[r])),
{
    let d = h.len();
    let error = oja_error::<A>(m, h);
    let after = outer_added::<A>(m, error, h, lr);
    let (row, new_row) = (row_of(m, d, r), row_of(after, d, r));
    lemma_row_bounds(d, d, r);
    lemma_matrix_row(d, d, |r: int, c: int| outer_row::<A>(m, error, h, lr, r)[c], r);
    lemma_num_dot::<A>(num, row, q);
    lemma_num_dot::<A>(num, new_row, q);
    lemma_zero_one::<A>(num);
    let e = num(error[r]);
    let s = num(lr) * e;
    assert(e == num(h[r]) - num(matvec_of::<A>(m, d, h)[r])) by {
        reveal(exact);
    }
    assert forall|c: int| 0 <= c < d implies num(#[trigger] new_row[c]) == 1real * num(row[c]) + s
        * num(h[c]) by {
        reveal(exact);
        lemma_neutral(num(row[c]));
        lemma_neutral(num(h[c]));
        lemma_commutes(s, num(h[c]));
        assert(new_row[c] == outer_row::<A>(m, error, h, lr, r)[c]);
    }
    lemma_inner_of_mix::<A>(num, new_row, 1real, row, s, h, q);
    lemma_neutral(inner::<A>(num, row, q));
    lemma_regroups(num(lr), e, inner::<A>(num, h, q));
}

/// The squares of the first values.
pub(crate) proof fn lemma_sum_of_squares<A: Arith>(
    num: spec_fn(A::T) -> real,
    values: Seq<A::T>,
    n: nat,
)
    requires
        exact::<A>(num),
        n <= values.len(),
    ensures
        num(sum_of_squares::<A>(values, n)) == total(n, |i: int| num(values[i]) * num(values[i])),
        num(sum_of_squares::<A>(values, n)) >= 0real,
    decreases n,
{
    lemma_zero_one::<A>(num);
    reveal(exact);
    if n > 0 {
        lemma_sum_of_squares::<A>(num, values, (n - 1) as nat);
        let x = num(values[n - 1]);
        assert(x * x >= 0real) by (nonlinear_arith);
    }
}

/// The Frobenius norm is a length: its square is the sum of the squares of the matrix.
pub proof fn frobenius_norms_are_lengths<A: Arith>(num: spec_fn(A::T) -> real, m: Seq<A::T>)
    requires
        exact::<A>(num),
    ensures
        num(frobenius_of::<A>(m)) >= 0real,
        num(frobenius_of::<A>(m)) * num(frobenius_of::<A>(m)) == squares::<A>(num, m),
{
    lemma_sum_of_squares::<A>(num, m, m.len());
    reveal(exact);
}

/// The surprise of a vector is its distance from the running mean.
pub proof fn surprise_is_a_distance<A: Arith>(
    num: spec_fn(A::T) -> real,
    m: MrmValues<A>,
    h: Seq<A::T>,
)
    requires
        exact::<A>(num),
    ensures
        num(m.surprise_of(h)) >= 0real,
        num(m.surprise_of(h)) * num(m.surprise_of(h)) == total(
            m.d,
            |i: int| (num(h[i]) - num(m.mean_h[i])) * (num(h[i]) - num(m.mean_h[i])),
        ),
{
    lemma_squared_distance::<A>(num, h, m.mean_h, m.d);
    reveal(exact);
}

/// The squared distance of two vectors.
pub(crate) proof fn lemma_squared_distance<A: Arith>(
    num: spec_fn(A::T) -> real,
    a: Seq<A::T>,
    b: Seq<A::T>,
    n: nat,
)
    requires
        exact::<A>(num),
    ensures
        num(squared_distance::<A>(a, b, n)) == total(
            n,
            |i: int| (num(a[i]) - num(b[i])) * (num(a[i]) - num(b[i])),
        ),
        num(squared_distance::<A>(a, b, n)) >= 0real,
    decreases n,
{
    lemma_zero_one::<A>(num);
    reveal(exact);
    if n > 0 {
        lemma_squared_distance::<A>(num, a, b, (n - 1) as nat);
        let x = num(a[n - 1]) - num(b[n - 1]);
        assert(x * x >= 0real) by (nonlinear_arith);
    }
}

/// Exponentials grow, through one at zero.
#[verifier::opaque]
pub open spec fn exponentials_grow<A: Arith>(num: spec_fn(A::T) -> real) -> bool {
    &&& forall|a: A::T| num(a) == 0real ==> num(#[trigger] s_exp::<A>(a)) == 1real
    &&& forall|a: A::T, b: A::T|
        #![trigger s_exp::<A>(a), s_exp::<A>(b)]
        num(a) < num(b) ==> num(s_exp::<A>(a)) < num(s_exp::<A>(b))
}

/// What surprises is written: a vector goes into the fine slots exactly where its surprise is above
/// the threshold, and its gate value is the sigmoid of ten times what it is above it.
pub proof fn surprises_are_written<A: Arith>(
    num: spec_fn(A::T) -> real,
    m: MrmValues<A>,
    h: Seq<A::T>,
    x: A::T,
)
    requires
        exact::<A>(num),
        exponentials_grow::<A>(num),
        num(x) == 10real * (num(m.surprise_of(h)) - num(m.surprise_threshold)),
    ensures
        m.is_written(h) <==> num(m.surprise_of(h)) > num(m.surprise_threshold),
        num(gate_of::<A>(m.surprise_of(h), m.surprise_threshold)) == num(sigmoid_of::<A>(x)),
{
    lemma_zero_one::<A>(num);
    let (s, t) = (m.surprise_of(h), m.surprise_threshold);
    let inside = s_times::<A>(s_negate::<A>(s_minus::<A>(s, t)), s_lit::<A>(10, 0));
    let (e, f) = (num(s_exp::<A>(inside)), num(s_exp::<A>(s_negate::<A>(x))));
    let g = num(gate_of::<A>(s, t));
    let half = num(s_lit::<A>(5, 1));
    assert(num(inside) == -num(x)) by {
        reveal(exact);
        assert(power_of_ten(0) == 1);
        let ten = num(s_lit::<A>(10, 0));
        assert(ten * (power_of_ten(0) as real) == 10u64 as real);
        assert(ten * 1real == 10real);
        let d = num(s) - num(t);
        assert((-d) * ten == -(10real * d)) by (nonlinear_arith)
            requires
                ten == 10real,
        ;
    }
    assert(half * 10real == 5real) by {
        reveal(exact);
        reveal_with_fuel(power_of_ten, 2);
        assert(power_of_ten(1) == 10);
        assert(half * (power_of_ten(1) as real) == 5u64 as real);
    }
    assert(e == f && e > 0real) by {
        reveal(exact);
        reveal(exponentials_grow);
        assert(num(s_negate::<A>(x)) == num(inside));
        assert(e <= f && f <= e);
    }
    assert(g == 1real / (1real + e) && num(sigmoid_of::<A>(x)) == 1real / (1real + f)) by {
        reveal(exact);
    }
    let b = 1real + e;
    assert(g * b == 1real && (b < 2real <==> g > 1real / 2real)) by (nonlinear_arith)
        requires
            g == 1real / b,
            b > 1real,
    ;
    let nothing = zero::<A>();
    assert(num(s_exp::<A>(nothing)) == 1real && (num(inside) < 0real ==> e < 1real) && (num(inside)
        > 0real ==> e > 1real) && (num(inside) == 0real ==> e == 1real)) by {
        reveal(exponentials_grow);
    }
    reveal(exact);
}

/// A running average moves towards what is new: its distance to the new value shrinks by the decay.
pub proof fn averages_move_towards_the_new<A: Arith>(
    num: spec_fn(A::T) -> real,
    decay: A::T,
    before: Seq<A::T>,
    new: Seq<A::T>,
    i: int,
)
    requires
        exact::<A>(num),
        before.len() == new.len(),
        0 <= i < new.len(),
    ensures
        averaged::<A>(decay, before, new).len() == before.len(),
        num(averaged::<A>(decay, before, new)[i]) - num(new[i]) == num(decay) * (num(before[i])
            - num(new[i])),
{
    lemma_zero_one::<A>(num);
    reveal(exact);
    let (k, a, b) = (num(decay), num(before[i]), num(new[i]));
    lemma_distributes(k, a, b);
    lemma_commutes(1real - k, b);
    lemma_distributes(b, 1real, k);
    lemma_neutral(b);
    lemma_commutes(b, k);
}

/// The coarse slot that a write goes to is the one whose key matches it best, the first of several
/// that match it alike. Matches are numbers.
pub proof fn coarse_writes_go_to_the_best_match<A: Arith>(
    num: spec_fn(A::T) -> real,
    keys: Seq<A::T>,
    key: Seq<A::T>,
    n: nat,
    j: int,
)
    requires
        exact::<A>(num),
        keys.len() >= n * key.len(),
        forall|s: int|
            0 <= s < n ==> inner::<A>(num, key, #[trigger] row_of(keys, key.len(), s)) > num(
                s_neg_inf::<A>(),
            ),
        0 <= j < n,
    ensures
        ({
            let best = nearest_of::<A>(keys, key.len(), key, n).0;
            &&& 0 <= best < n
            &&& inner::<A>(num, key, row_of(keys, key.len(), j)) <= inner::<A>(
                num,
                key,
                row_of(keys, key.len(), best),
            )
            &&& j < best ==> inner::<A>(num, key, row_of(keys, key.len(), j)) < inner::<A>(
                num,
                key,
                row_of(keys, key.len(), best),
            )
        }),
{
    lemma_nearest::<A>(num, keys, key, n, n);
    assert(inner::<A>(num, key, row_of(keys, key.len(), j)) > num(s_neg_inf::<A>()));
}

/// The best of the first `k` matches.
proof fn lemma_nearest<A: Arith>(
    num: spec_fn(A::T) -> real,
    keys: Seq<A::T>,
    key: Seq<A::T>,
    n: nat,
    k: nat,
)
    requires
        exact::<A>(num),
        keys.len() >= n * key.len(),
        k <= n,
        forall|s: int|
            0 <= s < n ==> inner::<A>(num, key, #[trigger] row_of(keys, key.len(), s)) > num(
                s_neg_inf::<A>(),
            ),
    ensures
        ({
            let best = nearest_of::<A>(keys, key.len(), key, k);
            &&& k > 0 ==> 0 <= best.0 < k && num(best.1) == inner::<A>(
                num,
                key,
                row_of(keys, key.len(), best.0),
            )
            &&& k == 0 ==> best.1 == s_neg_inf::<A>()
            &&& forall|s: int|
                0 <= s < k ==> inner::<A>(num, key, #[trigger] row_of(keys, key.len(), s)) <= num(
                    best.1,
                ) && (s < best.0 ==> inner::<A>(num, key, row_of(keys, key.len(), s)) < num(
                    best.1,
                ))
        }),
    decreases k,
{
    if k > 0 {
        lemma_nearest::<A>(num, keys, key, n, (k - 1) as nat);
        let row = row_of(keys, key.len(), k - 1);
        lemma_row_bounds(n, key.len(), k - 1);
        lemma_num_dot::<A>(num, key, row);
        reveal(exact);
    }
}

/// The slots of the memory are read by how well their keys match the query: of two live slots, the
/// one with the larger inner product has no smaller share.
pub proof fn slots_are_read_by_their_match<A: Arith>(
    num: spec_fn(A::T) -> real,
    m: MrmValues<A>,
    q: Seq<A::T>,
    keys: Seq<Seq<A::T>>,
    i: int,
    j: int,
)
    requires
        exact::<A>(num),
        m.k_fine + m.k_coarse > 0,
        m.fine_keys.len() == m.k_fine * q.len(),
        m.coarse_keys.len() == m.k_coarse * q.len(),
        keys.len() == m.k_fine + m.k_coarse,
        forall|s: int|
            0 <= s < keys.len() ==> #[trigger] keys[s] == if s < m.k_fine {
                row_of(m.fine_keys, q.len(), s)
            } else {
                row_of(m.coarse_keys, q.len(), s - m.k_fine)
            },
        0 <= i < keys.len(),
        0 <= j < keys.len(),
        is_live::<A>(keys[i]),
        is_live::<A>(keys[j]),
        inner::<A>(num, q, keys[i]) <= inner::<A>(num, q, keys[j]),
    ensures
        m.probs_of(q).len() == keys.len(),
        num(m.probs_of(q)[i]) <= num(m.probs_of(q)[j]),
        num(m.probs_of(q)[i]) >= 0real,
{
    let scores = bank_scores::<A>(q, m.fine_keys, m.k_fine) + bank_scores::<A>(
        q,
        m.coarse_keys,
        m.k_coarse,
    );
    assert forall|s: int| 0 <= s < keys.len() && is_live::<A>(keys[s]) implies num(
        #[trigger] scores[s],
    ) == inner::<A>(num, q, keys[s]) by {
        if s < m.k_fine {
            lemma_row_bounds(m.k_fine, q.len(), s);
        } else {
            lemma_row_bounds(m.k_coarse, q.len(), s - m.k_fine);
        }
        lemma_num_dot::<A>(num, q, keys[s]);
        assert(scores[s] == slot_score::<A>(q, keys[s]));
    }
    assert(num(scores[i]) <= num(scores[j]));
    softmax_follows_the_logits::<A>(num, scores, i, j);
}

/// Recalling gives back the value of a slot with the cosine of the angle between its key and the
/// query, or nothing. Lengths under 1e-6 count as 1e-6.
pub proof fn recall_gives_back_a_slot<A: Arith>(
    num: spec_fn(A::T) -> real,
    q: Seq<A::T>,
    keys: Seq<A::T>,
    vals: Seq<A::T>,
    n: nat,
)
    requires
        exact::<A>(num),
        keys.len() >= n * q.len(),
        num(s_lit::<A>(1, 6)) > 0real,
    ensures
        ({
            let r = recalled::<A>(q, keys, vals, n);
            ||| r == (zeros::<A>(q.len()), s_neg_inf::<A>())
            ||| exists|s: int|
                0 <= s < n && r.0 == #[trigger] row_of(vals, q.len(), s) && num(r.1) * (length_of::<
                    A,
                >(num, row_of(keys, q.len(), s)) * length_of::<A>(num, q)) == inner::<A>(
                    num,
                    q,
                    row_of(keys, q.len(), s),
                )
        }),
    decreases n,
{
    if n > 0 {
        lemma_row_bounds(n, q.len(), n - 1);
        recall_gives_back_a_slot::<A>(num, q, keys, vals, (n - 1) as nat);
        let key = row_of(keys, q.len(), n - 1);
        lemma_num_dot::<A>(num, q, key);
        lemma_num_dot::<A>(num, q, q);
        lemma_sum_of_squares::<A>(num, key, key.len());
        lemma_sum_of_squares::<A>(num, q, q.len());
        let (a, b) = (length_of::<A>(num, key), length_of::<A>(num, q));
        let l = a * b;
        assert(l > 0real) by (nonlinear_arith)
            requires
                l == a * b,
                a > 0real,
                b > 0real,
        ;
        let x = inner::<A>(num, q, key);
        let cosine = x / l;
        assert(cosine * l == x) by (nonlinear_arith)
            requires
                cosine == x / l,
                l > 0real,
        ;
        let norm_sq = sum_of_squares::<A>(key, key.len());
        let sim = s_over::<A>(
            dot_of::<A>(q, key),
            s_times::<A>(
                s_larger::<A>(s_sqrt::<A>(norm_sq), s_lit::<A>(1, 6)),
                s_larger::<A>(s_sqrt::<A>(dot_of::<A>(q, q)), s_lit::<A>(1, 6)),
            ),
        );
        assert(num(sim) == cosine) by {
            let (r1, r2) = (
                num(s_sqrt::<A>(dot_of::<A>(q, q))),
                num(s_sqrt::<A>(sum_of_squares::<A>(q, q.len()))),
            );
            reveal(exact);
            assert(r1 == r2) by (nonlinear_arith)
                requires
                    r1 >= 0real,
                    r2 >= 0real,
                    r1 * r1 == r2 * r2,
            ;
        }
        let before = recalled::<A>(q, keys, vals, (n - 1) as nat);
        let r = recalled::<A>(q, keys, vals, n);
        assert(r == before || r == (row_of(vals, q.len(), n - 1), sim));
    }
}

/// The length of a vector, at least 1e-6.
pub open spec fn length_of<A: Arith>(num: spec_fn(A::T) -> real, v: Seq<A::T>) -> real {
    let root = num(s_sqrt::<A>(sum_of_squares::<A>(v, v.len())));
    if root >= num(s_lit::<A>(1, 6)) {
        root
    } else {
        num(s_lit::<A>(1, 6))
    }
}

/// Recalling finds the closest: no live slot is closer to the query, by the cosine of their angle,
/// than the similarity that comes back. Queries and keys are longer than 1e-6.
pub proof fn recall_finds_the_closest<A: Arith>(
    num: spec_fn(A::T) -> real,
    q: Seq<A::T>,
    keys: Seq<A::T>,
    vals: Seq<A::T>,
    n: nat,
    j: int,
    q_len: real,
    key_len: real,
)
    requires
        exact::<A>(num),
        keys.len() >= n * q.len(),
        0 <= j < n,
        q_len >= num(s_lit::<A>(1, 6)) > 0real,
        q_len * q_len == squares::<A>(num, q),
        key_len >= num(s_lit::<A>(1, 6)),
        key_len * key_len == squares::<A>(num, row_of(keys, q.len(), j)),
        squares::<A>(num, row_of(keys, q.len(), j)) >= num(s_lit::<A>(1, 6)),
    ensures
        inner::<A>(num, q, row_of(keys, q.len(), j)) <= num(recalled::<A>(q, keys, vals, n).1) * (
        key_len * q_len),
    decreases n,
{
    lemma_row_bounds(n, q.len(), n - 1);
    if n - 1 > j {
        lemma_row_bounds(n, q.len(), j);
        recall_finds_the_closest::<A>(
            num,
            q,
            keys,
            vals,
            (n - 1) as nat,
            j,
            q_len,
            key_len,
        );
        let (a, b) = (
            num(recalled::<A>(q, keys, vals, (n - 1) as nat).1),
            num(recalled::<A>(q, keys, vals, n).1),
        );
        assert(a <= b) by {
            reveal(exact);
        }
        let l = key_len * q_len;
        assert(l > 0real) by (nonlinear_arith)
            requires
                l == key_len * q_len,
                key_len > 0real,
                q_len > 0real,
        ;
        assert(a * l <= b * l) by (nonlinear_arith)
            requires
                a <= b,
                l > 0real,
        ;
    } else {
        let key = row_of(keys, q.len(), j);
        lemma_num_dot::<A>(num, q, key);
        lemma_num_dot::<A>(num, q, q);
        lemma_sum_of_squares::<A>(num, key, key.len());
        let norm_sq = sum_of_squares::<A>(key, key.len());
        let lk = num(s_sqrt::<A>(norm_sq));
        let lq = num(s_sqrt::<A>(dot_of::<A>(q, q)));
        let sq = squares::<A>(num, q);
        assert(q_len * q_len >= 0real) by (nonlinear_arith);
        assert(lk >= 0real && lk * lk == key_len * key_len && lq >= 0real && lq * lq == q_len
            * q_len) by {
            reveal(exact);
            assert(num(dot_of::<A>(q, q)) == sq);
        }
        assert(lk == key_len) by (nonlinear_arith)
            requires
                lk >= 0real,
                key_len >= 0real,
                lk * lk == key_len * key_len,
        ;
        assert(lq == q_len) by (nonlinear_arith)
            requires
                lq >= 0real,
                q_len >= 0real,
                lq * lq == q_len * q_len,
        ;
        let l = key_len * q_len;
        assert(l > 0real) by (nonlinear_arith)
            requires
                l == key_len * q_len,
                key_len > 0real,
                q_len > 0real,
        ;
        let match_ = inner::<A>(num, q, key);
        let cosine = match_ / l;
        assert(cosine * l == match_) by (nonlinear_arith)
            requires
                cosine == match_ / l,
                l > 0real,
        ;
        let best = num(recalled::<A>(q, keys, vals, n).1);
        assert(cosine <= best) by {
            reveal(exact);
        }
        assert(cosine * l <= best * l) by (nonlinear_arith)
            requires
                cosine <= best,
                l > 0real,
        ;
    }
}

} // verus!
