//! Exact numbers: an arithmetic whose values stand for real numbers. Floats round, and keep to this
//! only approximately. Laws that hold of exact numbers speak of the reals that values stand for.

use vstd::prelude::*;
use crate::arith::{
    Arith, one, s_count, s_equals, s_exceeds, s_exp, s_larger, s_lit, s_minus, s_negate, s_over,
    s_plus, s_smaller, s_sqrt, s_times, zero,
};
use crate::softmax::{max_of, sum_of};
use crate::tensor::{dot_of, lanes, products_added};

verus! {

/// Ten to the power of `e`.
pub open spec fn power_of_ten(e: nat) -> nat
    decreases e,
{
    if e == 0 {
        1
    } else {
        10 * power_of_ten((e - 1) as nat)
    }
}

/// Each value stands for a real number, `num` of it, and the operations are those of the reals.
#[verifier::opaque]
pub open spec fn exact<A: Arith>(num: spec_fn(A::T) -> real) -> bool {
    &&& forall|a: A::T, b: A::T| num(#[trigger] s_plus::<A>(a, b)) == num(a) + num(b)
    &&& forall|a: A::T, b: A::T| num(#[trigger] s_minus::<A>(a, b)) == num(a) - num(b)
    &&& forall|a: A::T, b: A::T| num(#[trigger] s_times::<A>(a, b)) == num(a) * num(b)
    &&& forall|a: A::T, b: A::T|
        num(b) != 0real ==> num(#[trigger] s_over::<A>(a, b)) == num(a) / num(b)
    &&& forall|a: A::T| num(#[trigger] s_negate::<A>(a)) == -num(a)
    &&& forall|a: A::T, b: A::T| #[trigger] s_exceeds::<A>(a, b) <==> num(a) > num(b)
    &&& forall|a: A::T, b: A::T| #[trigger] s_equals::<A>(a, b) <==> num(a) == num(b)
    &&& forall|a: A::T, b: A::T|
        num(#[trigger] s_larger::<A>(a, b)) == if num(a) >= num(b) {
            num(a)
        } else {
            num(b)
        }
    &&& forall|a: A::T, b: A::T|
        num(#[trigger] s_smaller::<A>(a, b)) == if num(a) <= num(b) {
            num(a)
        } else {
            num(b)
        }
    &&& forall|m: u64, e: u32|
        num(#[trigger] s_lit::<A>(m, e)) * (power_of_ten(e as nat) as real) == m as real
    &&& forall|n: usize| num(#[trigger] s_count::<A>(n)) == n as real
    &&& forall|a: A::T| num(#[trigger] s_exp::<A>(a)) > 0real
    &&& forall|a: A::T, b: A::T|
        #![trigger s_exp::<A>(a), s_exp::<A>(b)]
        num(a) <= num(b) ==> num(s_exp::<A>(a)) <= num(s_exp::<A>(b))
    &&& forall|a: A::T|
        num(a) >= 0real ==> num(#[trigger] s_sqrt::<A>(a)) >= 0real && num(s_sqrt::<A>(a)) * num(
            s_sqrt::<A>(a),
        ) == num(a)
}

/// Values that stand for the same number are the same.
pub open spec fn told_apart<A: Arith>(num: spec_fn(A::T) -> real) -> bool {
    forall|a: A::T, b: A::T| #[trigger] num(a) == #[trigger] num(b) ==> a == b
}

/// Exponentials turn sums into products.
#[verifier::opaque]
pub open spec fn exponentials_multiply<A: Arith>(num: spec_fn(A::T) -> real) -> bool {
    forall|a: A::T, b: A::T, c: A::T|
        #![trigger s_exp::<A>(a), s_exp::<A>(b), s_exp::<A>(c)]
        num(c) == num(a) + num(b) ==> num(s_exp::<A>(c)) == num(s_exp::<A>(a)) * num(
            s_exp::<A>(b),
        )
}

/// Products of sums and differences.
pub proof fn lemma_distributes(a: real, b: real, c: real)
    ensures
        a * (b + c) == a * b + a * c,
        a * (b - c) == a * b - a * c,
{
    assert(a * (b + c) == a * b + a * c) by (nonlinear_arith);
    assert(a * (b - c) == a * b - a * c) by (nonlinear_arith);
}

/// The factors of a product in another order.
pub proof fn lemma_commutes(a: real, b: real)
    ensures
        a * b == b * a,
{
    assert(a * b == b * a) by (nonlinear_arith);
}

/// The factors of a product in other groups.
pub proof fn lemma_regroups(a: real, b: real, c: real)
    ensures
        (a * b) * c == a * (b * c),
        (a * b) * c == (a * c) * b,
{
    assert((a * b) * c == a * (b * c)) by (nonlinear_arith);
    assert((a * b) * c == (a * c) * b) by (nonlinear_arith);
}

/// Products with zero and one.
pub proof fn lemma_neutral(a: real)
    ensures
        0real * a == 0real,
        a * 0real == 0real,
        1real * a == a,
        a * 1real == a,
        a * (0real - 1real) == -a,
{
    assert(0real * a == 0real && a * 0real == 0real && 1real * a == a && a * 1real == a)
        by (nonlinear_arith);
    assert(a * (0real - 1real) == -a) by (nonlinear_arith);
}

/// The sum of `f` over the first `n` indices.
pub open spec fn total(n: nat, f: spec_fn(int) -> real) -> real
    decreases n,
{
    if n == 0 {
        0real
    } else {
        total((n - 1) as nat, f) + f(n - 1)
    }
}

/// Zero and one are what they are called.
pub proof fn lemma_zero_one<A: Arith>(num: spec_fn(A::T) -> real)
    requires
        exact::<A>(num),
    ensures
        num(zero::<A>()) == 0real,
        num(one::<A>()) == 1real,
{
    reveal(exact);
    assert(power_of_ten(0) == 1);
    assert(num(s_lit::<A>(0, 0)) * 1real == 0real);
    assert(num(s_lit::<A>(1, 0)) * 1real == 1real);
}

/// Sums of the same terms are the same.
pub proof fn lemma_total_same(n: nat, f: spec_fn(int) -> real, g: spec_fn(int) -> real)
    requires
        forall|i: int| 0 <= i < n ==> #[trigger] f(i) == g(i),
    ensures
        total(n, f) == total(n, g),
    decreases n,
{
    if n > 0 {
        lemma_total_same((n - 1) as nat, f, g);
        assert(f(n - 1) == g(n - 1));
    }
}

/// Sums of sums.
pub proof fn lemma_total_plus(
    n: nat,
    f: spec_fn(int) -> real,
    g: spec_fn(int) -> real,
    h: spec_fn(int) -> real,
)
    requires
        forall|i: int| 0 <= i < n ==> #[trigger] h(i) == f(i) + g(i),
    ensures
        total(n, h) == total(n, f) + total(n, g),
    decreases n,
{
    if n > 0 {
        lemma_total_plus((n - 1) as nat, f, g, h);
        assert(h(n - 1) == f(n - 1) + g(n - 1));
    }
}

/// Sums of multiples.
pub proof fn lemma_total_times(
    n: nat,
    c: real,
    f: spec_fn(int) -> real,
    h: spec_fn(int) -> real,
)
    requires
        forall|i: int| 0 <= i < n ==> #[trigger] h(i) == c * f(i),
    ensures
        total(n, h) == c * total(n, f),
    decreases n,
{
    if n > 0 {
        lemma_total_times((n - 1) as nat, c, f, h);
        assert(h(n - 1) == c * f(n - 1));
        let (s, t) = (total((n - 1) as nat, f), f(n - 1));
        assert(c * (s + t) == c * s + c * t) by (nonlinear_arith);
    } else {
        assert(c * 0real == 0real) by (nonlinear_arith);
    }
}

/// A sum of nothing but zeros.
pub proof fn lemma_total_zero(n: nat, f: spec_fn(int) -> real)
    requires
        forall|i: int| 0 <= i < n ==> #[trigger] f(i) == 0real,
    ensures
        total(n, f) == 0real,
    decreases n,
{
    if n > 0 {
        lemma_total_zero((n - 1) as nat, f);
        assert(f(n - 1) == 0real);
    }
}

/// A sum in two parts.
pub proof fn lemma_total_split(n: nat, m: nat, f: spec_fn(int) -> real, g: spec_fn(int) -> real)
    requires
        forall|i: int| 0 <= i < m ==> #[trigger] g(i) == f(n + i),
    ensures
        total(n + m, f) == total(n, f) + total(m, g),
    decreases m,
{
    if m > 0 {
        lemma_total_split(n, (m - 1) as nat, f, g);
        assert(g(m - 1) == f(n + m - 1));
    }
}

/// A sum with terms that are not larger is not larger.
pub proof fn lemma_total_at_most(n: nat, f: spec_fn(int) -> real, g: spec_fn(int) -> real)
    requires
        forall|i: int| 0 <= i < n ==> #[trigger] f(i) <= g(i),
    ensures
        total(n, f) <= total(n, g),
    decreases n,
{
    if n > 0 {
        lemma_total_at_most((n - 1) as nat, f, g);
        assert(f(n - 1) <= g(n - 1));
    }
}

/// A sum of terms that are not negative is at least each of them.
pub proof fn lemma_total_at_least(n: nat, f: spec_fn(int) -> real, k: int)
    requires
        forall|i: int| 0 <= i < n ==> #[trigger] f(i) >= 0real,
    ensures
        total(n, f) >= 0real,
        0 <= k < n ==> total(n, f) >= f(k),
    decreases n,
{
    if n > 0 {
        lemma_total_at_least((n - 1) as nat, f, k);
        assert(f(n - 1) >= 0real);
    }
}

/// The sum of the inner sums over rows is that over columns.
pub proof fn lemma_total_swap(
    n: nat,
    m: nat,
    f: spec_fn(int, int) -> real,
)
    ensures
        total(n, |i: int| total(m, |j: int| f(i, j))) == total(
            m,
            |j: int| total(n, |i: int| f(i, j)),
        ),
    decreases n,
{
    let by_row = |i: int| total(m, |j: int| f(i, j));
    let by_column = |j: int| total(n, |i: int| f(i, j));
    if n == 0 {
        lemma_total_zero(m, by_column);
    } else {
        let k = (n - 1) as nat;
        lemma_total_swap(k, m, f);
        let before = |j: int| total(k, |i: int| f(i, j));
        let last = |j: int| f(n - 1, j);
        assert forall|j: int| 0 <= j < m implies #[trigger] by_column(j) == before(j) + last(j) by {
            let g = |i: int| f(i, j);
            assert(total(n, g) == total(k, g) + g(n - 1));
        }
        lemma_total_plus(m, before, last, by_column);
        assert(by_row(n - 1) == total(m, last)) by {
            lemma_total_same(m, |j: int| f(n - 1, j), last);
        }
    }
}

/// The entries of a matrix, summed row by row.
pub proof fn lemma_total_rows(rows: nat, cols: nat, f: spec_fn(int) -> real)
    ensures
        total(rows * cols, f) == total(rows, |r: int| total(cols, |c: int| f(r * cols + c))),
    decreases rows,
{
    let by_row = |r: int| total(cols, |c: int| f(r * cols + c));
    if rows == 0 {
        assert(rows * cols == 0) by (nonlinear_arith)
            requires
                rows == 0,
        ;
    } else {
        let k = (rows - 1) as nat;
        lemma_total_rows(k, cols, f);
        assert(rows * cols == k * cols + cols) by (nonlinear_arith)
            requires
                rows == k + 1,
        ;
        let last = |c: int| f(k * cols + c);
        lemma_total_split(k * cols, cols, f, last);
        assert(by_row(rows - 1) == total(cols, last)) by {
            lemma_total_same(cols, |c: int| f((rows - 1) * cols + c), last);
        }
        lemma_total_same(k, |r: int| total(cols, |c: int| f(r * cols + c)), by_row);
    }
}

/// What a sum stands for.
pub proof fn lemma_num_sum<A: Arith>(num: spec_fn(A::T) -> real, values: Seq<A::T>, n: nat)
    requires
        exact::<A>(num),
        n <= values.len(),
    ensures
        num(sum_of::<A>(values, n)) == total(n, |i: int| num(values[i])),
    decreases n,
{
    lemma_zero_one::<A>(num);
    reveal(exact);
    if n > 0 {
        lemma_num_sum::<A>(num, values, (n - 1) as nat);
    }
}

/// The maximum is one of the values, and none is larger.
pub proof fn lemma_num_max<A: Arith>(num: spec_fn(A::T) -> real, values: Seq<A::T>, n: nat)
    requires
        exact::<A>(num),
        1 <= n <= values.len(),
    ensures
        forall|i: int| 0 <= i < n ==> num(#[trigger] values[i]) <= num(max_of::<A>(values, n)),
        exists|i: int| 0 <= i < n && #[trigger] values[i] == max_of::<A>(values, n),
    decreases n,
{
    reveal(exact);
    if n > 1 {
        lemma_num_max::<A>(num, values, (n - 1) as nat);
        let k = choose|i: int|
            0 <= i < n - 1 && #[trigger] values[i] == max_of::<A>(values, (n - 1) as nat);
        assert(values[k] == max_of::<A>(values, (n - 1) as nat));
        assert(values[n - 1] == values[n - 1]);
    } else {
        assert(values[0] == max_of::<A>(values, n));
    }
}

/// What the eight lanes stand for together.
proof fn lemma_num_lanes<A: Arith>(
    num: spec_fn(A::T) -> real,
    a: Seq<A::T>,
    b: Seq<A::T>,
    k: nat,
)
    requires
        exact::<A>(num),
        8 * k <= a.len(),
        b.len() == a.len(),
    ensures
        num(lanes::<A>(a, b, k)) == total(8 * k, |i: int| num(a[i]) * num(b[i])),
    decreases k,
{
    lemma_zero_one::<A>(num);
    let f = |i: int| num(a[i]) * num(b[i]);
    if k == 0 {
        reveal(exact);
    } else {
        let m = (k - 1) as nat;
        lemma_num_lanes::<A>(num, a, b, m);
        reveal(exact);
        let o = 8 * m as int;
        assert(total(8 * k, f) == total(8 * m, f) + f(o) + f(o + 1) + f(o + 2) + f(o + 3) + f(
            o + 4,
        ) + f(o + 5) + f(o + 6) + f(o + 7)) by {
            reveal_with_fuel(total, 9);
        }
    }
}

/// What an inner product stands for.
pub proof fn lemma_num_dot<A: Arith>(num: spec_fn(A::T) -> real, a: Seq<A::T>, b: Seq<A::T>)
    requires
        exact::<A>(num),
        b.len() == a.len(),
    ensures
        num(dot_of::<A>(a, b)) == total(a.len(), |i: int| num(a[i]) * num(b[i])),
{
    let k = a.len() / 8;
    lemma_num_lanes::<A>(num, a, b, k);
    lemma_num_products::<A>(num, lanes::<A>(a, b, k), a, b, 8 * k, a.len());
}

/// What products stand for that are added one by one.
proof fn lemma_num_products<A: Arith>(
    num: spec_fn(A::T) -> real,
    start: A::T,
    a: Seq<A::T>,
    b: Seq<A::T>,
    from: nat,
    to: nat,
)
    requires
        exact::<A>(num),
        from <= to <= a.len(),
        b.len() == a.len(),
        num(start) == total(from, |i: int| num(a[i]) * num(b[i])),
    ensures
        num(products_added::<A>(start, a, b, from as int, to as int)) == total(
            to,
            |i: int| num(a[i]) * num(b[i]),
        ),
    decreases to - from,
{
    reveal(exact);
    if from < to {
        lemma_num_products::<A>(num, start, a, b, from, (to - 1) as nat);
    }
}

} // verus!
