//! Matrix views over slices and basic vector primitives.

use vstd::prelude::*;
use crate::arith::{Arith, lawful, s_plus, s_times, zero};

verus! {

/// Row `r` of a matrix with `cols` columns that lies row by row in `data`.
pub open spec fn row_of<T>(data: Seq<T>, cols: nat, r: int) -> Seq<T> {
    data.subrange(r * cols, r * cols + cols)
}

/// The matrix whose element in row `r` and column `c` is `f(r, c)`, row by row.
pub open spec fn matrix<T>(rows: nat, cols: nat, f: spec_fn(int, int) -> T) -> Seq<T> {
    Seq::new(rows * cols, |i: int| f(i / (cols as int), i % (cols as int)))
}

/// Row `r` lies inside the matrix, behind the rows before it.
pub proof fn lemma_row_bounds(rows: nat, cols: nat, r: int)
    requires
        0 <= r < rows,
    ensures
        0 <= r * cols,
        r * cols + cols == (r + 1) * cols,
        r * cols + cols <= rows * cols,
{
    assert(0 <= r * cols && r * cols + cols == (r + 1) * cols && r * cols + cols <= rows * cols)
        by (nonlinear_arith)
        requires
            0 <= r < rows,
            0 <= cols,
    ;
}

/// The element of row `r` and column `c` lies at `r * cols + c`, and nowhere else.
pub proof fn lemma_position(rows: nat, cols: nat, r: int, c: int)
    requires
        0 <= r < rows,
        0 <= c < cols,
    ensures
        0 <= r * cols + c < rows * cols,
        (r * cols + c) / (cols as int) == r,
        (r * cols + c) % (cols as int) == c,
{
    lemma_row_bounds(rows, cols, r);
    vstd::arithmetic::div_mod::lemma_fundamental_div_mod_converse(
        r * cols + c,
        cols as int,
        r,
        c,
    );
}

/// Every position of the data is that of some row and column.
pub proof fn lemma_row_and_column(rows: nat, cols: nat, i: int)
    requires
        0 <= i < rows * cols,
    ensures
        cols > 0,
        0 <= i / (cols as int) < rows,
        0 <= i % (cols as int) < cols,
        i == (i / (cols as int)) * cols + i % (cols as int),
{
    assert(cols > 0) by (nonlinear_arith)
        requires
            0 <= i < rows * cols,
    ;
    let d = cols as int;
    vstd::arithmetic::div_mod::lemma_fundamental_div_mod(i, d);
    assert(0 <= i / d < rows && d * (i / d) == (i / d) * d) by (nonlinear_arith)
        requires
            0 <= i < rows * d,
            d > 0,
            i == d * (i / d) + i % d,
            0 <= i % d < d,
    ;
}

/// The rows of a matrix are what its definition says.
pub proof fn lemma_matrix_row<T>(rows: nat, cols: nat, f: spec_fn(int, int) -> T, r: int)
    requires
        0 <= r < rows,
    ensures
        row_of(matrix(rows, cols, f), cols, r) == Seq::new(cols, |c: int| f(r, c)),
{
    lemma_row_bounds(rows, cols, r);
    assert forall|c: int| 0 <= c < cols implies row_of(matrix(rows, cols, f), cols, r)[c] == f(
        r,
        c,
    ) by {
        lemma_position(rows, cols, r, c);
    }
    assert(row_of(matrix(rows, cols, f), cols, r) =~= Seq::new(cols, |c: int| f(r, c)));
}

/// A matrix is determined by its rows.
pub proof fn lemma_rows_determine<T>(rows: nat, cols: nat, a: Seq<T>, b: Seq<T>)
    requires
        a.len() == rows * cols,
        b.len() == rows * cols,
        forall|r: int| 0 <= r < rows ==> #[trigger] row_of(a, cols, r) == row_of(b, cols, r),
    ensures
        a == b,
{
    assert forall|i: int| 0 <= i < a.len() implies a[i] == b[i] by {
        lemma_row_and_column(rows, cols, i);
        let r = i / (cols as int);
        let c = i % (cols as int);
        lemma_row_bounds(rows, cols, r);
        assert(row_of(a, cols, r)[c] == a[r * cols + c]);
        assert(row_of(b, cols, r)[c] == b[r * cols + c]);
    }
    assert(a =~= b);
}

/// `data` with row `r` replaced.
pub open spec fn with_row<T>(data: Seq<T>, cols: nat, r: int, row: Seq<T>) -> Seq<T> {
    data.take(r * cols) + row + data.skip(r * cols + cols)
}

/// Replacing one of the first `rows` rows changes that row alone.
pub proof fn lemma_with_row<T>(data: Seq<T>, rows: nat, cols: nat, r: int, row: Seq<T>)
    requires
        data.len() >= rows * cols,
        0 <= r < rows,
        row.len() == cols,
    ensures
        with_row(data, cols, r, row).len() == data.len(),
        with_row(data, cols, r, row).skip((rows * cols) as int) == data.skip((rows * cols) as int),
        row_of(with_row(data, cols, r, row), cols, r) == row,
        forall|q: int|
            0 <= q < rows && q != r ==> #[trigger] row_of(with_row(data, cols, r, row), cols, q)
                == row_of(data, cols, q),
{
    let new = with_row(data, cols, r, row);
    lemma_row_bounds(rows, cols, r);
    assert(row_of(new, cols, r) =~= row);
    assert(new.skip((rows * cols) as int) =~= data.skip((rows * cols) as int));
    assert forall|q: int| 0 <= q < rows && q != r implies #[trigger] row_of(new, cols, q) == row_of(
        data,
        cols,
        q,
    ) by {
        lemma_row_bounds(rows, cols, q);
        assert(q < r ==> q * cols + cols <= r * cols) by (nonlinear_arith)
            requires
                0 <= cols,
        ;
        assert(q > r ==> r * cols + cols <= q * cols) by (nonlinear_arith)
            requires
                0 <= cols,
        ;
        assert(row_of(new, cols, q) =~= row_of(data, cols, q));
    }
}

/// Immutable 2D matrix view over a contiguous slice in row-major layout.
#[derive(Debug, Clone, Copy)]
pub struct MatrixView<'a, T> {
    pub rows: usize,
    pub cols: usize,
    pub data: &'a [T],
}

impl<'a, T> MatrixView<'a, T> {
    /// The data is as long as rows and columns say.
    pub open spec fn wf(&self) -> bool {
        self.data@.len() == self.rows * self.cols
    }

    pub fn new(data: &'a [T], rows: usize, cols: usize) -> (view: Self)
        requires
            data@.len() == rows * cols,
        ensures
            view.wf(),
            view.rows == rows,
            view.cols == cols,
            view.data@ == data@,
    {
        Self { rows, cols, data }
    }

    pub fn get(&self, r: usize, c: usize) -> (val: T) where T: Copy
        requires
            self.wf(),
            r < self.rows,
            c < self.cols,
        ensures
            val == row_of(self.data@, self.cols as nat, r as int)[c as int],
    {
        proof {
            lemma_row_bounds(self.rows as nat, self.cols as nat, r as int);
            assert(self.data.len() == self.data@.len());
        }
        self.data[r * self.cols + c]
    }

    pub fn row(&self, r: usize) -> (row: &'a [T])
        requires
            self.wf(),
            r < self.rows,
        ensures
            row@ == row_of(self.data@, self.cols as nat, r as int),
            row@.len() == self.cols,
    {
        proof {
            lemma_row_bounds(self.rows as nat, self.cols as nat, r as int);
            assert(self.data.len() == self.data@.len());
        }
        let start: usize = r * self.cols;
        vstd::slice::slice_subrange(self.data, start, start + self.cols)
    }
}

/// Mutable 2D matrix view over a contiguous slice in row-major layout.
#[derive(Debug)]
pub struct MatrixViewMut<'a, T> {
    pub rows: usize,
    pub cols: usize,
    pub data: &'a mut [T],
}

impl<'a, T> MatrixViewMut<'a, T> {
    /// The data is as long as rows and columns say.
    pub open spec fn wf(&self) -> bool {
        self.data@.len() == self.rows * self.cols
    }

    /// The elements, row by row.
    pub open spec fn elements(&self) -> Seq<T> {
        self.data@
    }

    pub fn new(data: &'a mut [T], rows: usize, cols: usize) -> (view: Self)
        requires
            old(data)@.len() == rows * cols,
        ensures
            view.wf(),
            view.rows == rows,
            view.cols == cols,
            view.data@ == old(data)@,
            final(data)@ == final(view.data)@,
    {
        Self { rows, cols, data }
    }

    pub fn get(&self, r: usize, c: usize) -> (val: T) where T: Copy
        requires
            self.wf(),
            r < self.rows,
            c < self.cols,
        ensures
            val == row_of(self.elements(), self.cols as nat, r as int)[c as int],
    {
        proof {
            lemma_row_bounds(self.rows as nat, self.cols as nat, r as int);
            assert(self.data.len() == self.data@.len());
        }
        self.data[r * self.cols + c]
    }

    pub fn set(&mut self, r: usize, c: usize, val: T)
        requires
            old(self).wf(),
            r < old(self).rows,
            c < old(self).cols,
        ensures
            final(self).wf(),
            final(self).rows == old(self).rows,
            final(self).cols == old(self).cols,
            final(self).data@ == old(self).data@.update(r * old(self).cols + c, val),
            final(final(self).data)@ == final(old(self).data)@,
    {
        proof {
            lemma_row_bounds(self.rows as nat, self.cols as nat, r as int);
            assert(self.data.len() == self.data@.len());
        }
        self.data[r * self.cols + c] = val;
    }

    pub fn row(&self, r: usize) -> (row: &[T])
        requires
            self.wf(),
            r < self.rows,
        ensures
            row@ == row_of(self.elements(), self.cols as nat, r as int),
            row@.len() == self.cols,
    {
        proof {
            lemma_row_bounds(self.rows as nat, self.cols as nat, r as int);
            assert(self.data.len() == self.data@.len());
        }
        let start: usize = r * self.cols;
        vstd::slice::slice_subrange(self.data, start, start + self.cols)
    }

    pub fn row_mut(&mut self, r: usize) -> (row: &mut [T])
        requires
            old(self).wf(),
            r < old(self).rows,
        ensures
            row@ == row_of(old(self).data@, old(self).cols as nat, r as int),
            row@.len() == old(self).cols,
            final(self).rows == old(self).rows,
            final(self).cols == old(self).cols,
            final(self).data@ == with_row(
                old(self).data@,
                old(self).cols as nat,
                r as int,
                final(row)@,
            ),
            final(final(self).data)@ == final(old(self).data)@,
    {
        proof {
            lemma_row_bounds(self.rows as nat, self.cols as nat, r as int);
            assert(self.data.len() == self.data@.len());
        }
        let start: usize = r * self.cols;
        let cols: usize = self.cols;
        let (_, tail) = self.data.split_at_mut(start);
        let (row, _) = tail.split_at_mut(cols);
        row
    }
}

/// The first `n` elements from `start` on, for writing.
pub(crate) fn part_mut<T>(data: &mut [T], start: usize, n: usize) -> (part: &mut [T])
    requires
        start + n <= old(data)@.len(),
    ensures
        part@ == old(data)@.subrange(start as int, start + n),
        final(data)@ == old(data)@.take(start as int) + final(part)@ + old(data)@.skip(start + n),
{
    let (_, tail) = data.split_at_mut(start);
    let (part, _) = tail.split_at_mut(n);
    part
}

/// A vector of `n` copies of a value.
pub fn filled<T: Copy>(value: T, n: usize) -> (v: Vec<T>)
    ensures
        v@ == Seq::new(n as nat, |i: int| value),
{
    let mut v: Vec<T> = Vec::with_capacity(n);
    let mut i: usize = 0;
    while i < n
        invariant
            i <= n,
            v@ == Seq::new(i as nat, |i: int| value),
        decreases n - i,
    {
        v.push(value);
        i += 1;
        assert(v@ =~= Seq::new(i as nat, |i: int| value));
    }
    v
}

/// A vector of zeros.
pub open spec fn zeros<A: Arith>(n: nat) -> Seq<A::T> {
    Seq::new(n, |i: int| zero::<A>())
}

/// What lane `l` of eight has summed up after `k` blocks of eight products.
pub open spec fn lane<A: Arith>(a: Seq<A::T>, b: Seq<A::T>, l: int, k: nat) -> A::T
    decreases k,
{
    if k == 0 {
        zero::<A>()
    } else {
        s_plus::<A>(
            lane::<A>(a, b, l, (k - 1) as nat),
            s_times::<A>(a[8 * (k - 1) + l], b[8 * (k - 1) + l]),
        )
    }
}

/// The eight lanes summed up after `k` blocks.
pub open spec fn lanes<A: Arith>(a: Seq<A::T>, b: Seq<A::T>, k: nat) -> A::T {
    s_plus::<A>(
        s_plus::<A>(
            s_plus::<A>(
                s_plus::<A>(lane::<A>(a, b, 0, k), lane::<A>(a, b, 1, k)),
                s_plus::<A>(lane::<A>(a, b, 2, k), lane::<A>(a, b, 3, k)),
            ),
            s_plus::<A>(lane::<A>(a, b, 4, k), lane::<A>(a, b, 5, k)),
        ),
        s_plus::<A>(lane::<A>(a, b, 6, k), lane::<A>(a, b, 7, k)),
    )
}

/// `start` with the products of positions `from` to `to` added one by one.
pub open spec fn products_added<A: Arith>(
    start: A::T,
    a: Seq<A::T>,
    b: Seq<A::T>,
    from: int,
    to: int,
) -> A::T
    decreases to - from,
{
    if to <= from {
        start
    } else {
        s_plus::<A>(
            products_added::<A>(start, a, b, from, to - 1),
            s_times::<A>(a[to - 1], b[to - 1]),
        )
    }
}

/// The inner product of two vectors: the products of whole blocks of eight are summed up in
/// eight lanes, the lanes are summed up, and the products of the remainder are added in turn.
pub open spec fn dot_of<A: Arith>(a: Seq<A::T>, b: Seq<A::T>) -> A::T {
    let k = a.len() / 8;
    products_added::<A>(lanes::<A>(a, b, k), a, b, 8 * k as int, a.len() as int)
}

/// Compute inner product (dot product) of two vectors: a · b
/// Summed up in eight lanes to encourage auto-vectorization.
pub fn dot<A: Arith>(a: &[A::T], b: &[A::T]) -> (r: A::T)
    requires
        lawful::<A>(),
        a@.len() == b@.len(),
    ensures
        r == dot_of::<A>(a@, b@),
{
    let n: usize = a.len();
    let blocks: usize = n / 8;
    let mut sum0 = A::lit(0, 0);
    let mut sum1 = A::lit(0, 0);
    let mut sum2 = A::lit(0, 0);
    let mut sum3 = A::lit(0, 0);
    let mut sum4 = A::lit(0, 0);
    let mut sum5 = A::lit(0, 0);
    let mut sum6 = A::lit(0, 0);
    let mut sum7 = A::lit(0, 0);
    let mut k: usize = 0;
    while k < blocks
        invariant
            lawful::<A>(),
            a@.len() == b@.len(),
            n == a@.len(),
            blocks == n / 8,
            k <= blocks,
            sum0 == lane::<A>(a@, b@, 0, k as nat),
            sum1 == lane::<A>(a@, b@, 1, k as nat),
            sum2 == lane::<A>(a@, b@, 2, k as nat),
            sum3 == lane::<A>(a@, b@, 3, k as nat),
            sum4 == lane::<A>(a@, b@, 4, k as nat),
            sum5 == lane::<A>(a@, b@, 5, k as nat),
            sum6 == lane::<A>(a@, b@, 6, k as nat),
            sum7 == lane::<A>(a@, b@, 7, k as nat),
        decreases blocks - k,
    {
        let at: usize = 8 * k;
        sum0 = A::plus(sum0, A::times(a[at], b[at]));
        sum1 = A::plus(sum1, A::times(a[at + 1], b[at + 1]));
        sum2 = A::plus(sum2, A::times(a[at + 2], b[at + 2]));
        sum3 = A::plus(sum3, A::times(a[at + 3], b[at + 3]));
        sum4 = A::plus(sum4, A::times(a[at + 4], b[at + 4]));
        sum5 = A::plus(sum5, A::times(a[at + 5], b[at + 5]));
        sum6 = A::plus(sum6, A::times(a[at + 6], b[at + 6]));
        sum7 = A::plus(sum7, A::times(a[at + 7], b[at + 7]));
        k += 1;
    }
    let mut total = A::plus(
        A::plus(A::plus(A::plus(sum0, sum1), A::plus(sum2, sum3)), A::plus(sum4, sum5)),
        A::plus(sum6, sum7),
    );
    let ghost start = total;
    let mut i: usize = 8 * blocks;
    while i < n
        invariant
            lawful::<A>(),
            a@.len() == b@.len(),
            n == a@.len(),
            blocks == n / 8,
            8 * blocks <= i <= n,
            total == products_added::<A>(start, a@, b@, 8 * blocks, i as int),
        decreases n - i,
    {
        total = A::plus(total, A::times(a[i], b[i]));
        i += 1;
    }
    total
}

/// `dst` with `alpha` times `src` added.
pub open spec fn add_scaled<A: Arith>(dst: Seq<A::T>, src: Seq<A::T>, alpha: A::T) -> Seq<A::T> {
    Seq::new(dst.len(), |i: int| s_plus::<A>(dst[i], s_times::<A>(alpha, src[i])))
}

/// In-place scaled vector addition: dst += alpha * src
pub fn vec_add_scaled<A: Arith>(dst: &mut [A::T], src: &[A::T], alpha: A::T)
    requires
        lawful::<A>(),
        old(dst)@.len() == src@.len(),
    ensures
        final(dst)@ == add_scaled::<A>(old(dst)@, src@, alpha),
{
    let n: usize = dst.len();
    let ghost before = dst@;
    let mut i: usize = 0;
    while i < n
        invariant
            lawful::<A>(),
            i <= n,
            n == before.len(),
            n == src@.len(),
            dst@.len() == n,
            forall|j: int|
                0 <= j < i ==> #[trigger] dst@[j] == add_scaled::<A>(before, src@, alpha)[j],
            forall|j: int| i <= j < n ==> #[trigger] dst@[j] == before[j],
        decreases n - i,
    {
        dst[i] = A::plus(dst[i], A::times(alpha, src[i]));
        i += 1;
    }
    assert(dst@ =~= add_scaled::<A>(before, src@, alpha));
}

/// `v` with each element multiplied by `alpha`.
pub open spec fn scaled<A: Arith>(v: Seq<A::T>, alpha: A::T) -> Seq<A::T> {
    Seq::new(v.len(), |i: int| s_times::<A>(v[i], alpha))
}

/// In-place vector scaling: dst *= alpha
pub fn vec_scale<A: Arith>(dst: &mut [A::T], alpha: A::T)
    requires
        lawful::<A>(),
    ensures
        final(dst)@ == scaled::<A>(old(dst)@, alpha),
{
    let n: usize = dst.len();
    let ghost before = dst@;
    let mut i: usize = 0;
    while i < n
        invariant
            lawful::<A>(),
            i <= n,
            n == before.len(),
            dst@.len() == n,
            forall|j: int| 0 <= j < i ==> #[trigger] dst@[j] == scaled::<A>(before, alpha)[j],
            forall|j: int| i <= j < n ==> #[trigger] dst@[j] == before[j],
        decreases n - i,
    {
        dst[i] = A::times(dst[i], alpha);
        i += 1;
    }
    assert(dst@ =~= scaled::<A>(before, alpha));
}

/// In-place vector zeroing
pub fn vec_zero<A: Arith>(dst: &mut [A::T])
    requires
        lawful::<A>(),
    ensures
        final(dst)@ == zeros::<A>(old(dst)@.len()),
{
    let n: usize = dst.len();
    let mut i: usize = 0;
    while i < n
        invariant
            lawful::<A>(),
            i <= n,
            dst@.len() == n,
            forall|j: int| 0 <= j < i ==> #[trigger] dst@[j] == zero::<A>(),
        decreases n - i,
    {
        dst[i] = A::lit(0, 0);
        i += 1;
    }
    assert(dst@ =~= zeros::<A>(n as nat));
}

/// In-place vector copy: dst = src
pub fn vec_copy<T: Copy>(dst: &mut [T], src: &[T])
    requires
        old(dst)@.len() == src@.len(),
    ensures
        final(dst)@ == src@,
{
    let n: usize = dst.len();
    let mut i: usize = 0;
    while i < n
        invariant
            i <= n,
            n == src@.len(),
            dst@.len() == n,
            forall|j: int| 0 <= j < i ==> #[trigger] dst@[j] == src@[j],
        decreases n - i,
    {
        dst[i] = src[i];
        i += 1;
    }
    assert(dst@ =~= src@);
}

/// A copy of a vector.
pub(crate) fn copied<T: Copy>(a: &[T]) -> (r: Vec<T>)
    ensures
        r@ == a@,
{
    let mut r: Vec<T> = Vec::with_capacity(a.len());
    append(&mut r, a);
    assert(r@ =~= a@);
    r
}

/// Put the elements of a slice behind those of a vector.
fn append<T: Copy>(r: &mut Vec<T>, a: &[T])
    ensures
        final(r)@ == old(r)@ + a@,
{
    let ghost before = r@;
    let mut i: usize = 0;
    while i < a.len()
        invariant
            i <= a@.len(),
            r@ == before + a@.take(i as int),
        decreases a@.len() - i,
    {
        r.push(a[i]);
        i += 1;
        assert(r@ =~= before + a@.take(i as int));
    }
    assert(a@.take(i as int) =~= a@);
}

/// `a` and `b`, one behind the other.
pub(crate) fn joined<T: Copy>(a: &[T], b: &[T]) -> (r: Vec<T>)
    requires
        a@.len() + b@.len() <= usize::MAX,
    ensures
        r@ == a@ + b@,
{
    let mut r: Vec<T> = Vec::with_capacity(a.len() + b.len());
    append(&mut r, a);
    append(&mut r, b);
    assert(r@ =~= a@ + b@);
    r
}

/// Two vectors of the same length that are equal from position `from` on.
pub open spec fn same_from<T>(a: Seq<T>, b: Seq<T>, from: int) -> bool {
    &&& a.len() == b.len()
    &&& a.skip(from) == b.skip(from)
}

} // verus!
