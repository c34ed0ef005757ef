//! Vector operations that return a new vector.

use vstd::prelude::*;
use crate::arith::{Arith, lawful, one};
use crate::layer::{times_each, zero_vec};
use crate::matvec::{
    matvec, matvec_of, matvec_transposed, matvec_transposed_of, outer_added,
    outer_product_accumulate, summed,
};
use crate::tensor::{MatrixView, MatrixViewMut};

verus! {

/// The vectors of a list.
pub open spec fn rows_in<T>(v: Seq<Vec<T>>) -> Seq<Seq<T>> {
    Seq::new(v.len(), |i: int| v[i]@)
}

/// All vectors of a list have this length.
pub open spec fn all_of_len<T>(rows: Seq<Seq<T>>, n: nat) -> bool {
    forall|i: int| 0 <= i < rows.len() ==> (#[trigger] rows[i]).len() == n
}

/// A vector of a list.
pub proof fn lemma_row_in<T>(v: Seq<Vec<T>>, rows: Seq<Seq<T>>, i: int)
    requires
        rows_in(v) == rows,
        0 <= i < rows.len(),
    ensures
        v.len() == rows.len(),
        v[i]@ == rows[i],
{
    assert(rows_in(v).len() == v.len());
    assert(rows_in(v)[i] == v[i]@);
}

/// W * x, for a matrix with the given number of rows.
pub(crate) fn mul_vec<A: Arith>(w: &[A::T], rows: usize, x: &[A::T]) -> (y: Vec<A::T>)
    requires
        lawful::<A>(),
        w@.len() == rows * x@.len(),
    ensures
        y@ == matvec_of::<A>(w@, rows as nat, x@),
        y@.len() == rows,
{
    let mut y = zero_vec::<A>(rows);
    let view = MatrixView::new(w, rows, x.len());
    matvec::<A>(&view, x, y.as_mut_slice());
    y
}

/// W^T * x, for a matrix with the given number of columns.
pub(crate) fn mul_transposed<A: Arith>(w: &[A::T], cols: usize, x: &[A::T]) -> (y: Vec<A::T>)
    requires
        lawful::<A>(),
        w@.len() == x@.len() * cols,
    ensures
        y@ == matvec_transposed_of::<A>(w@, cols as nat, x@),
        y@.len() == cols,
{
    let mut y = zero_vec::<A>(cols);
    let view = MatrixView::new(w, x.len(), cols);
    matvec_transposed::<A>(&view, x, y.as_mut_slice());
    y
}

/// W += u * v^T
pub(crate) fn add_outer<A: Arith>(w: &mut Vec<A::T>, u: &[A::T], v: &[A::T])
    requires
        lawful::<A>(),
        old(w)@.len() == u@.len() * v@.len(),
    ensures
        final(w)@ == outer_added::<A>(old(w)@, u@, v@, one::<A>()),
        final(w)@.len() == old(w)@.len(),
{
    let mut view = MatrixViewMut::new(w.as_mut_slice(), u.len(), v.len());
    outer_product_accumulate::<A>(u, v, A::lit(1, 0), &mut view);
}

/// The sums of the elements of two vectors.
pub(crate) fn sum_vec<A: Arith>(a: &[A::T], b: &[A::T]) -> (r: Vec<A::T>)
    requires
        lawful::<A>(),
        a@.len() == b@.len(),
    ensures
        r@ == summed::<A>(a@, b@),
        r@.len() == a@.len(),
{
    let n: usize = a.len();
    let mut r: Vec<A::T> = Vec::with_capacity(n);
    let mut i: usize = 0;
    while i < n
        invariant
            lawful::<A>(),
            i <= n,
            n == a@.len(),
            n == b@.len(),
            r@ == summed::<A>(a@, b@).take(i as int),
        decreases n - i,
    {
        r.push(A::plus(a[i], b[i]));
        i += 1;
        assert(r@ =~= summed::<A>(a@, b@).take(i as int));
    }
    assert(r@ =~= summed::<A>(a@, b@));
    r
}

/// The elements of a vector, each times `lambda`.
pub(crate) fn times_vec<A: Arith>(lambda: A::T, values: &[A::T]) -> (r: Vec<A::T>)
    requires
        lawful::<A>(),
    ensures
        r@ == times_each::<A>(lambda, values@),
        r@.len() == values@.len(),
{
    let n: usize = values.len();
    let mut r: Vec<A::T> = Vec::with_capacity(n);
    let mut i: usize = 0;
    while i < n
        invariant
            lawful::<A>(),
            i <= n,
            n == values@.len(),
            r@ == times_each::<A>(lambda, values@).take(i as int),
        decreases n - i,
    {
        r.push(A::times(lambda, values[i]));
        i += 1;
        assert(r@ =~= times_each::<A>(lambda, values@).take(i as int));
    }
    assert(r@ =~= times_each::<A>(lambda, values@));
    r
}

} // verus!
