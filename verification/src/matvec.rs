//! Matrix-vector multiplication kernels.

use vstd::prelude::*;
use crate::arith::{
    Arith, lawful, s_equals, s_plus, s_times, sums_are_exact, zero, zero_absorbs,
};
use crate::tensor::{
    MatrixView, MatrixViewMut, add_scaled, dot, dot_of, lane, lanes, lemma_matrix_row,
    lemma_row_bounds, lemma_rows_determine, lemma_with_row, matrix, products_added, row_of,
    vec_add_scaled, vec_zero, zeros,
};

verus! {

/// `W * x` for a matrix that lies row by row in `w`: the inner product of each row with `x`.
pub open spec fn matvec_of<A: Arith>(w: Seq<A::T>, rows: nat, x: Seq<A::T>) -> Seq<A::T> {
    Seq::new(rows, |r: int| dot_of::<A>(row_of(w, x.len(), r), x))
}

/// The element-wise sum of two vectors.
pub open spec fn summed<A: Arith>(a: Seq<A::T>, b: Seq<A::T>) -> Seq<A::T> {
    Seq::new(a.len(), |i: int| s_plus::<A>(a[i], b[i]))
}

/// `a` with the elements of `b` added as far as both go.
pub open spec fn zip_summed<A: Arith>(a: Seq<A::T>, b: Seq<A::T>) -> Seq<A::T> {
    Seq::new(
        a.len(),
        |i: int|
            if i < b.len() {
                s_plus::<A>(a[i], b[i])
            } else {
                a[i]
            },
    )
}

/// Vectors of the same length are added as a whole.
pub proof fn lemma_zip_summed<A: Arith>(a: Seq<A::T>, b: Seq<A::T>)
    ensures
        a.len() == b.len() ==> zip_summed::<A>(a, b) == summed::<A>(a, b),
{
    if a.len() == b.len() {
        assert(zip_summed::<A>(a, b) =~= summed::<A>(a, b));
    }
}

/// `y` with the first `n` rows of `w` added, each scaled by its element of `x`. A row whose
/// element is zero is left out.
pub open spec fn rows_added<A: Arith>(
    y: Seq<A::T>,
    w: Seq<A::T>,
    x: Seq<A::T>,
    n: nat,
) -> Seq<A::T>
    decreases n,
{
    if n == 0 {
        y
    } else {
        let before = rows_added::<A>(y, w, x, (n - 1) as nat);
        if s_equals::<A>(x[n - 1], zero::<A>()) {
            before
        } else {
            add_scaled::<A>(before, row_of(w, y.len(), n - 1), x[n - 1])
        }
    }
}

/// `W^T * x` for a matrix with `cols` columns that lies row by row in `w`.
pub open spec fn matvec_transposed_of<A: Arith>(
    w: Seq<A::T>,
    cols: nat,
    x: Seq<A::T>,
) -> Seq<A::T> {
    rows_added::<A>(zeros::<A>(cols), w, x, x.len())
}

/// Row `r` of `W + alpha * (u ⊗ v)`: left as it is where `alpha * u[r]` is zero.
pub open spec fn outer_row<A: Arith>(
    w: Seq<A::T>,
    u: Seq<A::T>,
    v: Seq<A::T>,
    alpha: A::T,
    r: int,
) -> Seq<A::T> {
    let scale = s_times::<A>(alpha, u[r]);
    let row = row_of(w, v.len(), r);
    if s_equals::<A>(scale, zero::<A>()) {
        row
    } else {
        add_scaled::<A>(row, v, scale)
    }
}

/// `W + alpha * (u ⊗ v)`.
pub open spec fn outer_added<A: Arith>(
    w: Seq<A::T>,
    u: Seq<A::T>,
    v: Seq<A::T>,
    alpha: A::T,
) -> Seq<A::T> {
    matrix(u.len(), v.len(), |r: int, c: int| outer_row::<A>(w, u, v, alpha, r)[c])
}

/// The length of a sum of rows is that of its start.
pub proof fn lemma_rows_added_len<A: Arith>(y: Seq<A::T>, w: Seq<A::T>, x: Seq<A::T>, n: nat)
    ensures
        rows_added::<A>(y, w, x, n).len() == y.len(),
    decreases n,
{
    if n > 0 {
        lemma_rows_added_len::<A>(y, w, x, (n - 1) as nat);
    }
}

/// Matrix-vector multiplication: y = W * x
/// W: (rows x cols)
/// x: (cols)
/// y: (rows) - pre-allocated destination
pub fn matvec<A: Arith>(w: &MatrixView<'_, A::T>, x: &[A::T], y: &mut [A::T])
    requires
        lawful::<A>(),
        w.wf(),
        w.cols == x@.len(),
        w.rows == old(y)@.len(),
    ensures
        final(y)@ == matvec_of::<A>(w.data@, w.rows as nat, x@),
{
    let mut r: usize = 0;
    while r < w.rows
        invariant
            lawful::<A>(),
            w.wf(),
            w.cols == x@.len(),
            w.rows == y@.len(),
            r <= w.rows,
            forall|q: int|
                0 <= q < r ==> #[trigger] y@[q] == matvec_of::<A>(w.data@, w.rows as nat, x@)[q],
        decreases w.rows - r,
    {
        let row = w.row(r);
        y[r] = dot::<A>(row, x);
        r += 1;
    }
    assert(y@ =~= matvec_of::<A>(w.data@, w.rows as nat, x@));
}

/// Matrix-vector multiplication with accumulation: y += W * x
/// W: (rows x cols)
/// x: (cols)
/// y: (rows) - pre-allocated destination
pub fn matvec_accumulate<A: Arith>(w: &MatrixView<'_, A::T>, x: &[A::T], y: &mut [A::T])
    requires
        lawful::<A>(),
        w.wf(),
        w.cols == x@.len(),
        w.rows == old(y)@.len(),
    ensures
        final(y)@ == summed::<A>(old(y)@, matvec_of::<A>(w.data@, w.rows as nat, x@)),
{
    let ghost before = y@;
    let ghost product = matvec_of::<A>(w.data@, w.rows as nat, x@);
    let mut r: usize = 0;
    while r < w.rows
        invariant
            lawful::<A>(),
            w.wf(),
            w.cols == x@.len(),
            w.rows == y@.len(),
            r <= w.rows,
            product == matvec_of::<A>(w.data@, w.rows as nat, x@),
            before.len() == w.rows,
            forall|q: int| 0 <= q < r ==> #[trigger] y@[q] == summed::<A>(before, product)[q],
            forall|q: int| r <= q < w.rows ==> #[trigger] y@[q] == before[q],
        decreases w.rows - r,
    {
        let row = w.row(r);
        y[r] = A::plus(y[r], dot::<A>(row, x));
        r += 1;
    }
    assert(y@ =~= summed::<A>(before, product));
}

/// Transposed matrix-vector multiplication: y = W^T * x
/// W: (rows x cols)
/// x: (rows)
/// y: (cols) - pre-allocated destination
pub fn matvec_transposed<A: Arith>(w: &MatrixView<'_, A::T>, x: &[A::T], y: &mut [A::T])
    requires
        lawful::<A>(),
        w.wf(),
        w.rows == x@.len(),
        w.cols == old(y)@.len(),
    ensures
        final(y)@ == matvec_transposed_of::<A>(w.data@, w.cols as nat, x@),
        final(y)@.len() == old(y)@.len(),
{
    vec_zero::<A>(y);
    matvec_transposed_accumulate::<A>(w, x, y);
}

/// Transposed matrix-vector multiplication with accumulation: y += W^T * x
/// W: (rows x cols)
/// x: (rows)
/// y: (cols) - pre-allocated destination
pub fn matvec_transposed_accumulate<A: Arith>(w: &MatrixView<'_, A::T>, x: &[A::T], y: &mut [A::T])
    requires
        lawful::<A>(),
        w.wf(),
        w.rows == x@.len(),
        w.cols == old(y)@.len(),
    ensures
        final(y)@ == rows_added::<A>(old(y)@, w.data@, x@, x@.len()),
        final(y)@.len() == old(y)@.len(),
{
    let ghost before = y@;
    let mut r: usize = 0;
    while r < w.rows
        invariant
            lawful::<A>(),
            w.wf(),
            w.rows == x@.len(),
            w.cols == y@.len(),
            w.cols == before.len(),
            r <= w.rows,
            y@ == rows_added::<A>(before, w.data@, x@, r as nat),
        decreases w.rows - r,
    {
        let xr = x[r];
        let z = A::lit(0, 0);
        if !A::equals(xr, z) {
            let row = w.row(r);
            vec_add_scaled::<A>(y, row, xr);
        }
        r += 1;
    }
}

/// Outer product accumulation: W += alpha * (u ⊗ v)
/// W: (m x n)
/// u: (m)
/// v: (n)
pub fn outer_product_accumulate<A: Arith>(
    u: &[A::T],
    v: &[A::T],
    alpha: A::T,
    w: &mut MatrixViewMut<'_, A::T>,
)
    requires
        lawful::<A>(),
        old(w).wf(),
        u@.len() == old(w).rows,
        v@.len() == old(w).cols,
    ensures
        final(w).wf(),
        final(w).rows == old(w).rows,
        final(w).cols == old(w).cols,
        final(w).elements() == outer_added::<A>(old(w).elements(), u@, v@, alpha),
        final(final(w).data)@ == final(old(w).data)@,
{
    let ghost before = w.elements();
    let ghost cols = w.cols as nat;
    let mut r: usize = 0;
    while r < w.rows
        invariant
            lawful::<A>(),
            w.wf(),
            w.rows == old(w).rows,
            w.cols == old(w).cols,
            w.cols == cols,
            u@.len() == w.rows,
            v@.len() == w.cols,
            before.len() == w.rows * w.cols,
            r <= w.rows,
            forall|q: int|
                0 <= q < r ==> #[trigger] row_of(w.elements(), cols, q) == outer_row::<A>(
                    before,
                    u@,
                    v@,
                    alpha,
                    q,
                ),
            forall|q: int|
                r <= q < w.rows ==> #[trigger] row_of(w.elements(), cols, q) == row_of(
                    before,
                    cols,
                    q,
                ),
            final(w.data)@ == final(old(w).data)@,
        decreases w.rows - r,
    {
        let scale = A::times(alpha, u[r]);
        let z = A::lit(0, 0);
        assert(row_of(w.elements(), cols, r as int) == row_of(before, cols, r as int));
        if !A::equals(scale, z) {
            let ghost data = w.elements();
            let ghost rows = w.rows as nat;
            let row = w.row_mut(r);
            vec_add_scaled::<A>(row, v, scale);
            proof {
                lemma_row_bounds(rows, cols, r as int);
                lemma_with_row(
                    data,
                    rows,
                    cols,
                    r as int,
                    add_scaled::<A>(row_of(before, cols, r as int), v@, scale),
                );
            }
        }
        r += 1;
    }
    proof {
        let after = outer_added::<A>(before, u@, v@, alpha);
        let f = |r: int, c: int| outer_row::<A>(before, u@, v@, alpha, r)[c];
        assert forall|q: int| 0 <= q < w.rows implies #[trigger] row_of(w.elements(), cols, q)
            == row_of(after, cols, q) by {
            lemma_matrix_row(w.rows as nat, cols, f, q);
            lemma_row_bounds(w.rows as nat, cols, q);
            assert(Seq::new(cols, |c: int| f(q, c)) =~= outer_row::<A>(before, u@, v@, alpha, q));
        }
        lemma_rows_determine(w.rows as nat, cols, w.elements(), after);
    }
}

/// The textbook inner product: the products summed up from left to right.
pub open spec fn sum_of_products<A: Arith>(a: Seq<A::T>, b: Seq<A::T>) -> A::T {
    products_added::<A>(zero::<A>(), a, b, 0, a.len() as int)
}

proof fn lemma_plus_is_associative<A: Arith>(a: A::T, b: A::T, c: A::T)
    requires
        sums_are_exact::<A>(),
    ensures
        s_plus::<A>(s_plus::<A>(a, b), c) == s_plus::<A>(a, s_plus::<A>(b, c)),
{
    reveal(sums_are_exact);
}

proof fn lemma_zero_adds_nothing<A: Arith>(a: A::T)
    requires
        sums_are_exact::<A>(),
    ensures
        s_plus::<A>(a, zero::<A>()) == a,
{
    reveal(sums_are_exact);
}

proof fn lemma_medial<A: Arith>(a: A::T, b: A::T, p: A::T, q: A::T)
    requires
        sums_are_exact::<A>(),
    ensures
        s_plus::<A>(s_plus::<A>(a, p), s_plus::<A>(b, q)) == s_plus::<A>(
            s_plus::<A>(a, b),
            s_plus::<A>(p, q),
        ),
{
    reveal(sums_are_exact);
    let bq = s_plus::<A>(b, q);
    let pq = s_plus::<A>(p, q);
    assert(s_plus::<A>(s_plus::<A>(a, p), bq) == s_plus::<A>(a, s_plus::<A>(p, bq)));
    assert(s_plus::<A>(s_plus::<A>(p, b), q) == s_plus::<A>(p, bq));
    assert(s_plus::<A>(s_plus::<A>(b, p), q) == s_plus::<A>(b, pq));
    assert(s_plus::<A>(p, b) == s_plus::<A>(b, p));
    assert(s_plus::<A>(s_plus::<A>(a, b), pq) == s_plus::<A>(a, s_plus::<A>(b, pq)));
}

/// The sum of eight values, paired as the lanes are.
spec fn tree<A: Arith>(s: Seq<A::T>) -> A::T {
    s_plus::<A>(
        s_plus::<A>(
            s_plus::<A>(s_plus::<A>(s[0], s[1]), s_plus::<A>(s[2], s[3])),
            s_plus::<A>(s[4], s[5]),
        ),
        s_plus::<A>(s[6], s[7]),
    )
}

proof fn lemma_tree_of_sums<A: Arith>(l: Seq<A::T>, p: Seq<A::T>)
    requires
        sums_are_exact::<A>(),
        l.len() == 8,
        p.len() == 8,
    ensures
        tree::<A>(summed::<A>(l, p)) == s_plus::<A>(tree::<A>(l), tree::<A>(p)),
{
    lemma_medial::<A>(l[0], l[1], p[0], p[1]);
    lemma_medial::<A>(l[2], l[3], p[2], p[3]);
    lemma_medial::<A>(l[4], l[5], p[4], p[5]);
    lemma_medial::<A>(l[6], l[7], p[6], p[7]);
    let (l01, p01) = (s_plus::<A>(l[0], l[1]), s_plus::<A>(p[0], p[1]));
    let (l23, p23) = (s_plus::<A>(l[2], l[3]), s_plus::<A>(p[2], p[3]));
    let (l45, p45) = (s_plus::<A>(l[4], l[5]), s_plus::<A>(p[4], p[5]));
    let (l67, p67) = (s_plus::<A>(l[6], l[7]), s_plus::<A>(p[6], p[7]));
    lemma_medial::<A>(l01, l23, p01, p23);
    let (l03, p03) = (s_plus::<A>(l01, l23), s_plus::<A>(p01, p23));
    lemma_medial::<A>(l03, l45, p03, p45);
    let (l05, p05) = (s_plus::<A>(l03, l45), s_plus::<A>(p03, p45));
    lemma_medial::<A>(l05, l67, p05, p67);
}

proof fn lemma_tree_in_order<A: Arith>(start: A::T, p: Seq<A::T>)
    requires
        sums_are_exact::<A>(),
        p.len() == 8,
    ensures
        s_plus::<A>(start, tree::<A>(p)) == s_plus::<A>(
            s_plus::<A>(
                s_plus::<A>(
                    s_plus::<A>(
                        s_plus::<A>(
                            s_plus::<A>(s_plus::<A>(s_plus::<A>(start, p[0]), p[1]), p[2]),
                            p[3],
                        ),
                        p[4],
                    ),
                    p[5],
                ),
                p[6],
            ),
            p[7],
        ),
{
    let p01 = s_plus::<A>(p[0], p[1]);
    let p23 = s_plus::<A>(p[2], p[3]);
    let p45 = s_plus::<A>(p[4], p[5]);
    let p67 = s_plus::<A>(p[6], p[7]);
    let p03 = s_plus::<A>(p01, p23);
    let p05 = s_plus::<A>(p03, p45);
    let s1 = s_plus::<A>(s_plus::<A>(start, p[0]), p[1]);
    let s3 = s_plus::<A>(s_plus::<A>(s1, p[2]), p[3]);
    let s5 = s_plus::<A>(s_plus::<A>(s3, p[4]), p[5]);
    lemma_plus_is_associative::<A>(start, p[0], p[1]);
    lemma_plus_is_associative::<A>(s1, p[2], p[3]);
    lemma_plus_is_associative::<A>(s3, p[4], p[5]);
    lemma_plus_is_associative::<A>(s5, p[6], p[7]);
    lemma_plus_is_associative::<A>(start, p01, p23);
    lemma_plus_is_associative::<A>(start, p03, p45);
    lemma_plus_is_associative::<A>(start, p05, p67);
}

proof fn lemma_lanes_in_order<A: Arith>(a: Seq<A::T>, b: Seq<A::T>, k: nat)
    requires
        sums_are_exact::<A>(),
    ensures
        lanes::<A>(a, b, k) == products_added::<A>(zero::<A>(), a, b, 0, 8 * k as int),
    decreases k,
{
    let at = Seq::new(8, |l: int| lane::<A>(a, b, l, k));
    assert(lanes::<A>(a, b, k) == tree::<A>(at));
    if k == 0 {
        lemma_zero_adds_nothing::<A>(zero::<A>());
    } else {
        let before = (k - 1) as nat;
        let base = 8 * before as int;
        lemma_lanes_in_order::<A>(a, b, before);
        let l = Seq::new(8, |l: int| lane::<A>(a, b, l, before));
        let p = Seq::new(8, |l: int| s_times::<A>(a[base + l], b[base + l]));
        assert(at =~= summed::<A>(l, p));
        lemma_tree_of_sums::<A>(l, p);
        let start = tree::<A>(l);
        assert(start == lanes::<A>(a, b, before));
        lemma_tree_in_order::<A>(start, p);
        reveal_with_fuel(products_added, 9);
    }
}

proof fn lemma_products_added_in_parts<A: Arith>(
    start: A::T,
    a: Seq<A::T>,
    b: Seq<A::T>,
    from: int,
    mid: int,
    to: int,
)
    requires
        from <= mid <= to,
    ensures
        products_added::<A>(products_added::<A>(start, a, b, from, mid), a, b, mid, to)
            == products_added::<A>(start, a, b, from, to),
    decreases to - mid,
{
    if mid < to {
        lemma_products_added_in_parts::<A>(start, a, b, from, mid, to - 1);
    }
}

/// Where sums are exact, the inner product in eight lanes is the textbook one.
pub proof fn dot_is_the_sum_of_products<A: Arith>(a: Seq<A::T>, b: Seq<A::T>)
    requires
        sums_are_exact::<A>(),
    ensures
        dot_of::<A>(a, b) == sum_of_products::<A>(a, b),
{
    let k = a.len() / 8;
    lemma_lanes_in_order::<A>(a, b, k);
    lemma_products_added_in_parts::<A>(zero::<A>(), a, b, 0, 8 * k as int, a.len() as int);
}

/// Column `c` of a matrix with `cols` columns.
pub open spec fn column_of<T>(w: Seq<T>, rows: nat, cols: nat, c: int) -> Seq<T> {
    Seq::new(rows, |r: int| row_of(w, cols, r)[c])
}

proof fn lemma_rows_added_element<A: Arith>(
    w: Seq<A::T>,
    cols: nat,
    x: Seq<A::T>,
    n: nat,
    c: int,
)
    requires
        sums_are_exact::<A>(),
        zero_absorbs::<A>(),
        n <= x.len(),
        0 <= c < cols,
    ensures
        rows_added::<A>(zeros::<A>(cols), w, x, n)[c] == products_added::<A>(
            zero::<A>(),
            x,
            column_of(w, x.len(), cols, c),
            0,
            n as int,
        ),
    decreases n,
{
    lemma_rows_added_len::<A>(zeros::<A>(cols), w, x, n);
    if n > 0 {
        lemma_rows_added_len::<A>(zeros::<A>(cols), w, x, (n - 1) as nat);
        lemma_rows_added_element::<A>(w, cols, x, (n - 1) as nat, c);
        lemma_zero_adds_nothing::<A>(rows_added::<A>(zeros::<A>(cols), w, x, (n - 1) as nat)[c]);
    }
}

/// Where sums are exact and zero absorbs, leaving out the rows whose element is zero changes
/// nothing: each element of `W^T * x` is the textbook inner product of `x` with a column.
pub proof fn transposed_product_is_by_columns<A: Arith>(w: Seq<A::T>, cols: nat, x: Seq<A::T>)
    requires
        sums_are_exact::<A>(),
        zero_absorbs::<A>(),
    ensures
        matvec_transposed_of::<A>(w, cols, x) == Seq::new(
            cols,
            |c: int| sum_of_products::<A>(x, column_of(w, x.len(), cols, c)),
        ),
{
    lemma_rows_added_len::<A>(zeros::<A>(cols), w, x, x.len());
    assert forall|c: int| 0 <= c < cols implies matvec_transposed_of::<A>(w, cols, x)[c]
        == sum_of_products::<A>(x, column_of(w, x.len(), cols, c)) by {
        lemma_rows_added_element::<A>(w, cols, x, x.len(), c);
    }
    assert(matvec_transposed_of::<A>(w, cols, x) =~= Seq::new(
        cols,
        |c: int| sum_of_products::<A>(x, column_of(w, x.len(), cols, c)),
    ));
}

} // verus!
