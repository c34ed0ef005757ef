//! Differentiation: an arithmetic whose values carry a slope beside the number they stand for, as
//! dual numbers do. Run in it, a forward pass yields the slope of its result along with the result:
//! the derivative along the direction that the slopes of its inputs give. What the backward passes
//! compute is held against that.

use vstd::prelude::*;
use crate::arith::{
    Arith, one, s_count, s_exp, s_larger, s_lit, s_ln, s_minus, s_negate, s_over, s_plus, s_sqrt,
    s_tanh, s_times, zero,
};
use crate::exact::{
    exact, lemma_commutes, lemma_distributes, lemma_neutral, lemma_num_dot, lemma_regroups,
    lemma_total_plus, lemma_total_rows, lemma_total_same, lemma_total_swap,
    lemma_total_split, lemma_total_times, lemma_total_zero, lemma_zero_one, total,
};
use crate::layer::times_each;
use crate::matvec::{
    lemma_rows_added_len, matvec_of, matvec_transposed_of, outer_added, outer_row, rows_added,
    summed,
};
use crate::model::row_added;
use crate::softmax::sum_of;
use crate::tensor::{
    add_scaled, dot_of, lanes, lemma_row_bounds, products_added, row_of, scaled, zeros,
};

verus! {

/// The number and the slope that each value stands for.
pub struct Calculus<A: Arith> {
    pub num: spec_fn(A::T) -> real,
    pub slope: spec_fn(A::T) -> real,
}

impl<A: Arith> Calculus<A> {
    /// Numbers are exact, and slopes follow the rules of differentiation.
    #[verifier::opaque]
    pub open spec fn holds(&self) -> bool {
        let num = self.num;
        let slope = self.slope;
        &&& exact::<A>(num)
        &&& forall|m: u64, e: u32| slope(#[trigger] s_lit::<A>(m, e)) == 0real
        &&& forall|n: usize| slope(#[trigger] s_count::<A>(n)) == 0real
        &&& forall|a: A::T, b: A::T| slope(#[trigger] s_plus::<A>(a, b)) == slope(a) + slope(b)
        &&& forall|a: A::T, b: A::T| slope(#[trigger] s_minus::<A>(a, b)) == slope(a) - slope(b)
        &&& forall|a: A::T, b: A::T|
            slope(#[trigger] s_times::<A>(a, b)) == slope(a) * num(b) + num(a) * slope(b)
        &&& forall|a: A::T, b: A::T|
            num(b) != 0real ==> slope(#[trigger] s_over::<A>(a, b)) * (num(b) * num(b)) == slope(a)
                * num(b) - num(a) * slope(b)
        &&& forall|a: A::T| slope(#[trigger] s_negate::<A>(a)) == -slope(a)
        &&& forall|a: A::T|
            slope(#[trigger] s_exp::<A>(a)) == num(s_exp::<A>(a)) * slope(a)
        &&& forall|a: A::T|
            num(a) > 0real ==> slope(#[trigger] s_ln::<A>(a)) * num(a) == slope(a)
        &&& forall|a: A::T|
            slope(#[trigger] s_tanh::<A>(a)) == (1real - num(s_tanh::<A>(a)) * num(
                s_tanh::<A>(a),
            )) * slope(a)
        &&& forall|a: A::T|
            num(a) > 0real ==> 2real * (num(s_sqrt::<A>(a)) * slope(#[trigger] s_sqrt::<A>(a)))
                == slope(a)
        &&& forall|a: A::T, b: A::T|
            num(a) > num(b) ==> slope(#[trigger] s_larger::<A>(a, b)) == slope(a)
        &&& forall|a: A::T, b: A::T|
            num(a) < num(b) ==> slope(#[trigger] s_larger::<A>(a, b)) == slope(b)
    }

    /// The sum of the gradients `g` times the slopes of the weights `w`: what the gradients say of
    /// the slope of a loss.
    pub open spec fn along(&self, g: Seq<A::T>, w: Seq<A::T>) -> real {
        total(w.len(), |i: int| (self.num)(g[i]) * (self.slope)(w[i]))
    }

    /// The slopes of the weights of a matrix, each times the gradient at its row and what its column
    /// was multiplied with.
    pub open spec fn weights_move(
        &self,
        w: Seq<A::T>,
        u: Seq<A::T>,
        x: Seq<A::T>,
    ) -> real {
        total(
            u.len(),
            |r: int|
                (self.num)(u[r]) * total(
                    x.len(),
                    |c: int| (self.slope)(w[r * x.len() + c]) * (self.num)(x[c]),
                ),
        )
    }

    /// What is exact.
    pub proof fn lemma_exact(&self)
        requires
            self.holds(),
        ensures
            exact::<A>(self.num),
            (self.num)(zero::<A>()) == 0real,
            (self.num)(one::<A>()) == 1real,
            (self.slope)(zero::<A>()) == 0real,
            (self.slope)(one::<A>()) == 0real,
    {
        reveal(Calculus::holds);
        lemma_zero_one::<A>(self.num);
    }

    /// The slope of a sum.
    pub proof fn lemma_slope_sum(&self, values: Seq<A::T>, n: nat)
        requires
            self.holds(),
            n <= values.len(),
        ensures
            (self.slope)(sum_of::<A>(values, n)) == total(n, |i: int| (self.slope)(values[i])),
        decreases n,
    {
        self.lemma_exact();
        reveal(Calculus::holds);
        if n > 0 {
            self.lemma_slope_sum(values, (n - 1) as nat);
        }
    }

    /// The slope of one product in an inner product.
    spec fn product_slope(&self, a: Seq<A::T>, b: Seq<A::T>, i: int) -> real {
        (self.slope)(a[i]) * (self.num)(b[i]) + (self.num)(a[i]) * (self.slope)(b[i])
    }

    /// The slope of the eight lanes.
    proof fn lemma_slope_lanes(&self, a: Seq<A::T>, b: Seq<A::T>, k: nat)
        requires
            self.holds(),
            8 * k <= a.len(),
            b.len() == a.len(),
        ensures
            (self.slope)(lanes::<A>(a, b, k)) == total(
                8 * k,
                |i: int| self.product_slope(a, b, i),
            ),
        decreases k,
    {
        self.lemma_exact();
        let f = |i: int| self.product_slope(a, b, i);
        if k == 0 {
            reveal(Calculus::holds);
        } else {
            let m = (k - 1) as nat;
            self.lemma_slope_lanes(a, b, m);
            reveal(Calculus::holds);
            let o = 8 * m as int;
            assert(total(8 * k, f) == total(8 * m, f) + f(o) + f(o + 1) + f(o + 2) + f(o + 3) + f(
                o + 4,
            ) + f(o + 5) + f(o + 6) + f(o + 7)) by {
                reveal_with_fuel(total, 9);
            }
        }
    }

    /// The slope of products that are added one by one.
    proof fn lemma_slope_products(
        &self,
        start: A::T,
        a: Seq<A::T>,
        b: Seq<A::T>,
        from: nat,
        to: nat,
    )
        requires
            self.holds(),
            from <= to <= a.len(),
            b.len() == a.len(),
            (self.slope)(start) == total(from, |i: int| self.product_slope(a, b, i)),
        ensures
            (self.slope)(products_added::<A>(start, a, b, from as int, to as int)) == total(
                to,
                |i: int| self.product_slope(a, b, i),
            ),
        decreases to - from,
    {
        reveal(Calculus::holds);
        if from < to {
            self.lemma_slope_products(start, a, b, from, (to - 1) as nat);
        }
    }

    /// The slope of an inner product.
    pub proof fn lemma_slope_dot(&self, a: Seq<A::T>, b: Seq<A::T>)
        requires
            self.holds(),
            b.len() == a.len(),
        ensures
            (self.slope)(dot_of::<A>(a, b)) == total(
                a.len(),
                |i: int| (self.slope)(a[i]) * (self.num)(b[i]),
            ) + total(a.len(), |i: int| (self.num)(a[i]) * (self.slope)(b[i])),
    {
        let k = a.len() / 8;
        self.lemma_slope_lanes(a, b, k);
        self.lemma_slope_products(lanes::<A>(a, b, k), a, b, 8 * k, a.len());
        lemma_total_plus(
            a.len(),
            |i: int| (self.slope)(a[i]) * (self.num)(b[i]),
            |i: int| (self.num)(a[i]) * (self.slope)(b[i]),
            |i: int| self.product_slope(a, b, i),
        );
    }

    /// What rows stand for that are added, each times its element of `u`.
    pub proof fn lemma_num_rows(
        &self,
        y: Seq<A::T>,
        w: Seq<A::T>,
        u: Seq<A::T>,
        n: nat,
        c: int,
    )
        requires
            self.holds(),
            n <= u.len(),
            0 <= c < y.len(),
            w.len() >= u.len() * y.len(),
        ensures
            rows_added::<A>(y, w, u, n).len() == y.len(),
            (self.num)(rows_added::<A>(y, w, u, n)[c]) == (self.num)(y[c]) + total(
                n,
                |r: int| (self.num)(u[r]) * (self.num)(w[r * y.len() + c]),
            ),
        decreases n,
    {
        lemma_rows_added_len::<A>(y, w, u, n);
        if n > 0 {
            let r = n - 1;
            self.lemma_num_rows(y, w, u, r as nat, c);
            self.lemma_exact();
            lemma_rows_added_len::<A>(y, w, u, r as nat);
            lemma_row_bounds(u.len(), y.len(), r);
            assert(row_of(w, y.len(), r)[c] == w[r * y.len() + c]);
            reveal(exact);
            let z = (self.num)(w[r * y.len() + c]);
            assert(0real * z == 0real) by (nonlinear_arith);
        }
    }

    /// What an entry of a matrix stands for to which an outer product was added.
    pub proof fn lemma_num_outer(
        &self,
        g: Seq<A::T>,
        u: Seq<A::T>,
        v: Seq<A::T>,
        alpha: A::T,
        r: int,
        c: int,
    )
        requires
            self.holds(),
            g.len() == u.len() * v.len(),
            0 <= r < u.len(),
            0 <= c < v.len(),
        ensures
            0 <= r * v.len() + c < g.len(),
            (self.num)(outer_added::<A>(g, u, v, alpha)[r * v.len() + c]) == (self.num)(
                g[r * v.len() + c],
            ) + (self.num)(alpha) * (self.num)(u[r]) * (self.num)(v[c]),
    {
        self.lemma_exact();
        let cols = v.len();
        lemma_row_bounds(u.len(), cols, r);
        let i = r * cols + c;
        vstd::arithmetic::div_mod::lemma_fundamental_div_mod_converse(i, cols as int, r, c);
        assert(row_of(g, cols, r)[c] == g[i]);
        assert(outer_added::<A>(g, u, v, alpha)[i] == outer_row::<A>(g, u, v, alpha, r)[c]);
        reveal(exact);
        let z = (self.num)(v[c]);
        assert(0real * z == 0real) by (nonlinear_arith);
    }

    /// What an outer product adds to the gradients moves with the weights.
    pub proof fn lemma_along_outer(
        &self,
        g: Seq<A::T>,
        w: Seq<A::T>,
        u: Seq<A::T>,
        v: Seq<A::T>,
        alpha: A::T,
    )
        requires
            self.holds(),
            w.len() == u.len() * v.len(),
            g.len() == w.len(),
        ensures
            outer_added::<A>(g, u, v, alpha).len() == g.len(),
            self.along(outer_added::<A>(g, u, v, alpha), w) == self.along(g, w) + (self.num)(alpha)
                * self.weights_move(w, u, v),
    {
        let (rows, cols) = (u.len(), v.len());
        let after = outer_added::<A>(g, u, v, alpha);
        let num = self.num;
        let slope = self.slope;
        let a = num(alpha);
        let f = |i: int| num(after[i]) * slope(w[i]);
        let old_f = |i: int| num(g[i]) * slope(w[i]);
        let more = |i: int| (num(after[i]) - num(g[i])) * slope(w[i]);
        assert forall|i: int| 0 <= i < w.len() implies #[trigger] f(i) == old_f(i) + more(i) by {
            let (x, y, s) = (num(after[i]), num(g[i]), slope(w[i]));
            assert(x * s == y * s + (x - y) * s) by (nonlinear_arith);
        }
        lemma_total_plus(w.len(), old_f, more, f);
        lemma_total_rows(rows, cols, more);
        let by_row = |r: int| total(cols, |c: int| more(r * cols + c));
        let moved = |r: int| num(u[r]) * total(cols, |c: int| slope(w[r * cols + c]) * num(v[c]));
        assert forall|r: int| 0 <= r < rows implies #[trigger] by_row(r) == a * moved(r) by {
            let terms = |c: int| more(r * cols + c);
            let inner = |c: int| slope(w[r * cols + c]) * num(v[c]);
            let ur = num(u[r]);
            assert forall|c: int| 0 <= c < cols implies #[trigger] terms(c) == (a * ur) * inner(
                c,
            ) by {
                self.lemma_num_outer(g, u, v, alpha, r, c);
                let (x, y, s, z) = (
                    num(after[r * cols + c]),
                    num(g[r * cols + c]),
                    slope(w[r * cols + c]),
                    num(v[c]),
                );
                assert((x - y) * s == (a * ur) * (s * z)) by (nonlinear_arith)
                    requires
                        x == y + a * ur * z,
                ;
            }
            lemma_total_times(cols, a * ur, inner, terms);
            let t = total(cols, inner);
            assert((a * ur) * t == a * (ur * t)) by (nonlinear_arith);
        }
        lemma_total_times(rows, a, moved, by_row);
    }

    /// What flows back through a matrix is what its inputs move: for the gradient `u` at `W x`, the
    /// part of its slope that comes from `x`.
    pub proof fn lemma_transposed(&self, w: Seq<A::T>, u: Seq<A::T>, x: Seq<A::T>)
        requires
            self.holds(),
            w.len() == u.len() * x.len(),
        ensures
            matvec_transposed_of::<A>(w, x.len(), u).len() == x.len(),
            self.along(matvec_transposed_of::<A>(w, x.len(), u), x) == total(
                u.len(),
                |r: int|
                    (self.num)(u[r]) * total(
                        x.len(),
                        |c: int| (self.num)(w[r * x.len() + c]) * (self.slope)(x[c]),
                    ),
            ),
    {
        let (rows, cols) = (u.len(), x.len());
        let num = self.num;
        let slope = self.slope;
        let back = matvec_transposed_of::<A>(w, cols, u);
        lemma_rows_added_len::<A>(zeros::<A>(cols), w, u, rows);
        self.lemma_exact();
        let f = |r: int, c: int| num(u[r]) * num(w[r * cols + c]) * slope(x[c]);
        lemma_total_swap(rows, cols, f);
        let left = |c: int| num(back[c]) * slope(x[c]);
        let by_column = |c: int| total(rows, |r: int| f(r, c));
        assert forall|c: int| 0 <= c < cols implies #[trigger] left(c) == by_column(c) by {
            self.lemma_num_rows(zeros::<A>(cols), w, u, rows, c);
            let inner = |r: int| num(u[r]) * num(w[r * cols + c]);
            let s = slope(x[c]);
            let column = |r: int| f(r, c);
            assert forall|r: int| 0 <= r < rows implies #[trigger] column(r) == s * inner(r) by {
                let (a, b) = (num(u[r]), num(w[r * cols + c]));
                assert(a * b * s == s * (a * b)) by (nonlinear_arith);
            }
            lemma_total_times(rows, s, inner, column);
            let t = total(rows, inner);
            assert(num(back[c]) == t);
            assert(t * s == s * t) by (nonlinear_arith);
        }
        lemma_total_same(cols, left, by_column);
        let by_row = |r: int| total(cols, |c: int| f(r, c));
        let right = |r: int| num(u[r]) * total(cols, |c: int| num(w[r * cols + c]) * slope(x[c]));
        assert forall|r: int| 0 <= r < rows implies #[trigger] by_row(r) == right(r) by {
            let a = num(u[r]);
            let inner = |c: int| num(w[r * cols + c]) * slope(x[c]);
            let row = |c: int| f(r, c);
            assert forall|c: int| 0 <= c < cols implies #[trigger] row(c) == a * inner(c) by {
                let (b, s) = (num(w[r * cols + c]), slope(x[c]));
                assert(a * b * s == a * (b * s)) by (nonlinear_arith);
            }
            lemma_total_times(cols, a, inner, row);
        }
        lemma_total_same(rows, by_row, right);
    }

    /// The slope of `W x`, weighed with the gradient `u` at it: what its weights move, and what
    /// flows back to its inputs.
    pub proof fn lemma_linear(&self, w: Seq<A::T>, u: Seq<A::T>, x: Seq<A::T>)
        requires
            self.holds(),
            w.len() == u.len() * x.len(),
        ensures
            self.along(u, matvec_of::<A>(w, u.len(), x)) == self.weights_move(w, u, x) + self.along(
                matvec_transposed_of::<A>(w, x.len(), u),
                x,
            ),
    {
        let (rows, cols) = (u.len(), x.len());
        let num = self.num;
        let slope = self.slope;
        let y = matvec_of::<A>(w, rows, x);
        self.lemma_transposed(w, u, x);
        let whole = |r: int| num(u[r]) * slope(y[r]);
        let moved = |r: int| num(u[r]) * total(cols, |c: int| slope(w[r * cols + c]) * num(x[c]));
        let back = |r: int| num(u[r]) * total(cols, |c: int| num(w[r * cols + c]) * slope(x[c]));
        assert forall|r: int| 0 <= r < rows implies #[trigger] whole(r) == moved(r) + back(r) by {
            lemma_row_bounds(rows, cols, r);
            let row = row_of(w, cols, r);
            self.lemma_slope_dot(row, x);
            lemma_total_same(
                cols,
                |c: int| slope(row[c]) * num(x[c]),
                |c: int| slope(w[r * cols + c]) * num(x[c]),
            );
            lemma_total_same(
                cols,
                |c: int| num(row[c]) * slope(x[c]),
                |c: int| num(w[r * cols + c]) * slope(x[c]),
            );
            let a = num(u[r]);
            let s = total(cols, |c: int| slope(w[r * cols + c]) * num(x[c]));
            let t = total(cols, |c: int| num(w[r * cols + c]) * slope(x[c]));
            assert(a * (s + t) == a * s + a * t) by (nonlinear_arith);
        }
        lemma_total_plus(rows, moved, back, whole);
    }

    /// No gradients.
    pub proof fn lemma_along_nothing(&self, w: Seq<A::T>)
        requires
            self.holds(),
        ensures
            self.along(zeros::<A>(w.len()), w) == 0real,
    {
        self.lemma_exact();
        let f = |i: int| (self.num)(zeros::<A>(w.len())[i]) * (self.slope)(w[i]);
        assert forall|i: int| 0 <= i < w.len() implies #[trigger] f(i) == 0real by {
            lemma_neutral((self.slope)(w[i]));
        }
        lemma_total_zero(w.len(), f);
    }

    /// Gradients that are added up.
    pub proof fn lemma_along_summed(&self, a: Seq<A::T>, b: Seq<A::T>, w: Seq<A::T>)
        requires
            self.holds(),
            a.len() == w.len(),
            b.len() == w.len(),
        ensures
            self.along(summed::<A>(a, b), w) == self.along(a, w) + self.along(b, w),
    {
        self.lemma_exact();
        let num = self.num;
        let slope = self.slope;
        let both = summed::<A>(a, b);
        let f = |i: int| num(a[i]) * slope(w[i]);
        let g = |i: int| num(b[i]) * slope(w[i]);
        let h = |i: int| num(both[i]) * slope(w[i]);
        assert forall|i: int| 0 <= i < w.len() implies #[trigger] h(i) == f(i) + g(i) by {
            reveal(exact);
            let (x, y, s) = (num(a[i]), num(b[i]), slope(w[i]));
            assert((x + y) * s == x * s + y * s) by (nonlinear_arith);
        }
        lemma_total_plus(w.len(), f, g, h);
    }

    /// Gradients at two vectors behind one another.
    pub proof fn lemma_along_both(&self, g: Seq<A::T>, x: Seq<A::T>, y: Seq<A::T>)
        requires
            g.len() == x.len() + y.len(),
        ensures
            self.along(g, x + y) == self.along(g.take(x.len() as int), x) + self.along(
                g.skip(x.len() as int),
                y,
            ),
    {
        let num = self.num;
        let slope = self.slope;
        let n = x.len();
        let w = x + y;
        let f = |i: int| num(g[i]) * slope(w[i]);
        let back = |i: int| num(g.skip(n as int)[i]) * slope(y[i]);
        assert forall|i: int| 0 <= i < y.len() implies #[trigger] back(i) == f(n + i) by {
            assert(g.skip(n as int)[i] == g[n + i]);
            assert(w[n + i] == y[i]);
        }
        lemma_total_split(n, y.len(), f, back);
        lemma_total_same(n, f, |i: int| num(g.take(n as int)[i]) * slope(x[i]));
    }

    /// A row that is added to the gradients of a matrix.
    pub proof fn lemma_along_row(
        &self,
        g: Seq<A::T>,
        w: Seq<A::T>,
        rows: nat,
        d: nat,
        r: int,
        delta: Seq<A::T>,
    )
        requires
            self.holds(),
            0 <= r < rows,
            w.len() == rows * d,
            g.len() == w.len(),
            delta.len() == d,
        ensures
            row_added::<A>(g, d, r, delta).len() == g.len(),
            self.along(row_added::<A>(g, d, r, delta), w) == self.along(g, w) + self.along(
                delta,
                row_of(w, d, r),
            ),
    {
        self.lemma_exact();
        lemma_row_bounds(rows, d, r);
        let num = self.num;
        let slope = self.slope;
        let after = row_added::<A>(g, d, r, delta);
        let f = |i: int| num(g[i]) * slope(w[i]);
        let h = |i: int| num(after[i]) * slope(w[i]);
        let more = |i: int|
            if r * d <= i < r * d + d {
                num(delta[i - r * d]) * slope(w[i])
            } else {
                0real
            };
        assert forall|i: int| 0 <= i < w.len() implies #[trigger] h(i) == f(i) + more(i) by {
            if r * d <= i < r * d + d {
                reveal(exact);
                assert(row_of(g, d, r)[i - r * d] == g[i]);
                let (x, y, s) = (num(g[i]), num(delta[i - r * d]), slope(w[i]));
                assert((x + y) * s == x * s + y * s) by (nonlinear_arith);
            }
        }
        lemma_total_plus(w.len(), f, more, h);
        let front = (r * d) as nat;
        let rest = (w.len() - front - d) as nat;
        let here = |j: int| num(delta[j]) * slope(row_of(w, d, r)[j]);
        let behind = |j: int| more(front + d + j);
        lemma_total_split(front, d, more, here);
        lemma_total_split(front + d, rest, more, behind);
        lemma_total_zero(front, more);
        lemma_total_zero(rest, behind);
    }

    /// Rows that are added to gradients.
    pub proof fn lemma_along_rows(
        &self,
        y: Seq<A::T>,
        w: Seq<A::T>,
        u: Seq<A::T>,
        x: Seq<A::T>,
    )
        requires
            self.holds(),
            y.len() == x.len(),
            w.len() == u.len() * x.len(),
        ensures
            rows_added::<A>(y, w, u, u.len()).len() == x.len(),
            self.along(rows_added::<A>(y, w, u, u.len()), x) == self.along(y, x) + self.along(
                matvec_transposed_of::<A>(w, x.len(), u),
                x,
            ),
    {
        self.lemma_exact();
        let num = self.num;
        let slope = self.slope;
        let d = x.len();
        let after = rows_added::<A>(y, w, u, u.len());
        let back = matvec_transposed_of::<A>(w, d, u);
        lemma_rows_added_len::<A>(y, w, u, u.len());
        lemma_rows_added_len::<A>(zeros::<A>(d), w, u, u.len());
        let f = |i: int| num(y[i]) * slope(x[i]);
        let g = |i: int| num(back[i]) * slope(x[i]);
        let h = |i: int| num(after[i]) * slope(x[i]);
        assert forall|i: int| 0 <= i < d implies #[trigger] h(i) == f(i) + g(i) by {
            self.lemma_num_rows(y, w, u, u.len(), i);
            self.lemma_num_rows(zeros::<A>(d), w, u, u.len(), i);
            let s = slope(x[i]);
            lemma_commutes(num(after[i]), s);
            lemma_distributes(s, num(y[i]), num(back[i]));
            lemma_commutes(num(y[i]), s);
            lemma_commutes(num(back[i]), s);
        }
        lemma_total_plus(d, f, g, h);
    }

    /// Gradients that are scaled.
    pub proof fn lemma_along_scaled(&self, g: Seq<A::T>, alpha: A::T, w: Seq<A::T>)
        requires
            self.holds(),
            g.len() == w.len(),
        ensures
            self.along(scaled::<A>(g, alpha), w) == (self.num)(alpha) * self.along(g, w),
            self.along(times_each::<A>(alpha, g), w) == (self.num)(alpha) * self.along(g, w),
    {
        self.lemma_exact();
        let num = self.num;
        let slope = self.slope;
        let a = num(alpha);
        let (p, q) = (scaled::<A>(g, alpha), times_each::<A>(alpha, g));
        let f = |i: int| num(g[i]) * slope(w[i]);
        let h = |i: int| num(p[i]) * slope(w[i]);
        let k = |i: int| num(q[i]) * slope(w[i]);
        assert forall|i: int| 0 <= i < w.len() implies #[trigger] h(i) == a * f(i) && k(i) == a * f(
            i,
        ) by {
            reveal(exact);
            lemma_commutes(num(g[i]), a);
            lemma_regroups(a, num(g[i]), slope(w[i]));
        }
        lemma_total_times(w.len(), a, f, h);
        assert forall|i: int| 0 <= i < w.len() implies #[trigger] k(i) == a * f(i) by {
            assert(h(i) == a * f(i));
        }
        lemma_total_times(w.len(), a, f, k);
    }

    /// Gradients with others added, each times `alpha`.
    pub proof fn lemma_along_add_scaled(
        &self,
        g: Seq<A::T>,
        more: Seq<A::T>,
        alpha: A::T,
        w: Seq<A::T>,
    )
        requires
            self.holds(),
            g.len() == w.len(),
            more.len() == w.len(),
        ensures
            self.along(add_scaled::<A>(g, more, alpha), w) == self.along(g, w) + (self.num)(alpha)
                * self.along(more, w),
    {
        let t = times_each::<A>(alpha, more);
        self.lemma_along_scaled(more, alpha, w);
        self.lemma_along_summed(g, t, w);
        assert(add_scaled::<A>(g, more, alpha) =~= summed::<A>(g, t));
    }

    /// The slope of a scaled sum, weighed with the gradient `u` at it.
    pub proof fn lemma_through_add_scaled(
        &self,
        u: Seq<A::T>,
        dst: Seq<A::T>,
        src: Seq<A::T>,
        alpha: A::T,
    )
        requires
            self.holds(),
            u.len() == dst.len(),
            src.len() == dst.len(),
        ensures
            self.along(u, add_scaled::<A>(dst, src, alpha)) == self.along(u, dst) + (self.num)(
                alpha,
            ) * self.along(u, src) + (self.slope)(alpha) * (self.num)(dot_of::<A>(u, src)),
    {
        self.lemma_exact();
        let num = self.num;
        let slope = self.slope;
        let n = dst.len();
        let sum = add_scaled::<A>(dst, src, alpha);
        let (a, s) = (num(alpha), slope(alpha));
        lemma_num_dot::<A>(num, u, src);
        let whole = |i: int| num(u[i]) * slope(sum[i]);
        let f = |i: int| num(u[i]) * slope(dst[i]);
        let g = |i: int| num(u[i]) * slope(src[i]);
        let k = |i: int| num(u[i]) * num(src[i]);
        let ag = |i: int| a * g(i);
        let sk = |i: int| s * k(i);
        let fag = |i: int| f(i) + ag(i);
        assert forall|i: int| 0 <= i < n implies #[trigger] whole(i) == fag(i) + sk(i) by {
            reveal(Calculus::holds);
            let (x, y, p, q) = (num(u[i]), slope(dst[i]), slope(src[i]), num(src[i]));
            assert(slope(sum[i]) == y + (s * q + a * p));
            lemma_distributes(x, y, s * q + a * p);
            lemma_distributes(x, s * q, a * p);
            lemma_regroups(x, s, q);
            lemma_regroups(x, a, p);
            lemma_commutes(x, s);
            lemma_commutes(x, a);
            lemma_regroups(s, x, q);
            lemma_regroups(a, x, p);
        }
        lemma_total_times(n, a, g, ag);
        lemma_total_times(n, s, k, sk);
        lemma_total_plus(n, f, ag, fag);
        lemma_total_plus(n, fag, sk, whole);
    }

    /// A gradient that is scaled moves its weights as much more.
    pub proof fn lemma_weights_move_scaled(
        &self,
        w: Seq<A::T>,
        u: Seq<A::T>,
        x: Seq<A::T>,
        alpha: A::T,
    )
        requires
            self.holds(),
        ensures
            self.weights_move(w, times_each::<A>(alpha, u), x) == (self.num)(alpha)
                * self.weights_move(w, u, x),
    {
        self.lemma_exact();
        let num = self.num;
        let slope = self.slope;
        let a = num(alpha);
        let t = times_each::<A>(alpha, u);
        let inner = |r: int| total(x.len(), |c: int| slope(w[r * x.len() + c]) * num(x[c]));
        let f = |r: int| num(u[r]) * total(x.len(), |c: int| slope(w[r * x.len() + c]) * num(x[c]));
        let h = |r: int| num(t[r]) * total(x.len(), |c: int| slope(w[r * x.len() + c]) * num(x[c]));
        assert forall|r: int| 0 <= r < u.len() implies #[trigger] h(r) == a * f(r) by {
            reveal(exact);
            lemma_regroups(a, num(u[r]), inner(r));
        }
        lemma_total_times(u.len(), a, f, h);
    }

    /// Through activations: a gradient at each of them that is the derivative moves what is before
    /// them.
    pub proof fn lemma_along_same(
        &self,
        g: Seq<A::T>,
        w: Seq<A::T>,
        h: Seq<A::T>,
        v: Seq<A::T>,
    )
        requires
            w.len() == v.len(),
            forall|i: int|
                #![trigger w[i]]
                0 <= i < w.len() ==> (self.num)(g[i]) * (self.slope)(w[i]) == (self.num)(h[i])
                    * (self.slope)(v[i]),
        ensures
            self.along(g, w) == self.along(h, v),
    {
        let p = |i: int| (self.num)(g[i]) * (self.slope)(w[i]);
        let q = |i: int| (self.num)(h[i]) * (self.slope)(v[i]);
        assert forall|i: int| 0 <= i < w.len() implies #[trigger] p(i) == q(i) by {
            assert(w[i] == w[i]);
        }
        lemma_total_same(w.len(), p, q);
    }
}

} // verus!
