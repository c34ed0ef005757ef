//! Hebbian fast associative memory update and recall kernels.
//! Supports fused exponential decay + rank-1 outer product updates,
//! associative recall (M * h), Frobenius normalization, and Oja's rule.

use vstd::prelude::*;
use crate::arith::{Arith, lawful, s_exceeds, s_lit, s_minus, s_over, s_plus, s_sqrt, s_times, zero};
use crate::matvec::{matvec, matvec_of, outer_added, outer_product_accumulate};
use crate::tensor::{
    MatrixView, MatrixViewMut, filled, lemma_matrix_row, lemma_row_bounds, lemma_rows_determine,
    lemma_with_row, matrix, row_of, scaled, vec_scale, vec_zero, with_row, zeros,
};

verus! {

/// Online Hebbian associative memory state of dimension (d x d).
#[derive(Debug, Clone)]
pub struct HebbianMemory<A: Arith> {
    pub dim: usize,
    pub decay: A::T,
    pub lr: A::T,
    pub m: Vec<A::T>,
}

/// Row `r` of the decayed memory with its share of `lr * (h ⊗ h)` added.
pub open spec fn hebbian_row<A: Arith>(
    m: Seq<A::T>,
    h: Seq<A::T>,
    decay: A::T,
    lr: A::T,
    r: int,
) -> Seq<A::T> {
    Seq::new(
        h.len(),
        |c: int|
            s_plus::<A>(
                s_times::<A>(decay, row_of(m, h.len(), r)[c]),
                s_times::<A>(s_times::<A>(lr, h[r]), h[c]),
            ),
    )
}

/// The memory after a Hebbian write: M_ij = lambda * M_ij + eta * h_i * h_j
pub open spec fn hebbian_of<A: Arith>(
    m: Seq<A::T>,
    h: Seq<A::T>,
    decay: A::T,
    lr: A::T,
) -> Seq<A::T> {
    matrix(h.len(), h.len(), |r: int, c: int| hebbian_row::<A>(m, h, decay, lr, r)[c])
}

/// The squares of the first `n` values, summed up from zero.
pub open spec fn sum_of_squares<A: Arith>(values: Seq<A::T>, n: nat) -> A::T
    decreases n,
{
    if n == 0 {
        zero::<A>()
    } else {
        s_plus::<A>(
            sum_of_squares::<A>(values, (n - 1) as nat),
            s_times::<A>(values[n - 1], values[n - 1]),
        )
    }
}

/// The Frobenius norm: ||M||_F = sqrt(sum(M_ij^2))
pub open spec fn frobenius_of<A: Arith>(m: Seq<A::T>) -> A::T {
    s_sqrt::<A>(sum_of_squares::<A>(m, m.len()))
}

/// What Oja's rule multiplies with `h`: h - M*h
pub open spec fn oja_error<A: Arith>(m: Seq<A::T>, h: Seq<A::T>) -> Seq<A::T> {
    let recalled = matvec_of::<A>(m, h.len(), h);
    Seq::new(h.len(), |i: int| s_minus::<A>(h[i], recalled[i]))
}

impl<A: Arith> HebbianMemory<A> {
    /// The matrix is square, of the dimension given.
    pub open spec fn wf(&self) -> bool {
        self.m@.len() == self.dim * self.dim
    }

    /// Initialize a zeroed (d x d) Hebbian associative memory matrix.
    pub fn new(dim: usize, decay: A::T, lr: A::T) -> (memory: Self)
        requires
            lawful::<A>(),
            dim * dim <= usize::MAX,
        ensures
            memory.wf(),
            memory.dim == dim,
            memory.decay == decay,
            memory.lr == lr,
            memory.m@ == zeros::<A>((dim * dim) as nat),
    {
        let m = filled(A::lit(0, 0), dim * dim);
        assert(m@ =~= zeros::<A>((dim * dim) as nat));
        Self { dim, decay, lr, m }
    }

    /// Reset memory matrix to all zeros.
    pub fn clear(&mut self)
        requires
            lawful::<A>(),
            old(self).wf(),
        ensures
            final(self).wf(),
            final(self).dim == old(self).dim,
            final(self).decay == old(self).decay,
            final(self).lr == old(self).lr,
            final(self).m@ == zeros::<A>(old(self).m@.len()),
    {
        vec_zero::<A>(self.m.as_mut_slice());
    }

    /// View as immutable MatrixView.
    pub fn as_view(&self) -> (view: MatrixView<'_, A::T>)
        requires
            self.wf(),
        ensures
            view.wf(),
            view.rows == self.dim,
            view.cols == self.dim,
            view.data@ == self.m@,
    {
        MatrixView::new(self.m.as_slice(), self.dim, self.dim)
    }

    /// View as mutable MatrixViewMut.
    pub fn as_view_mut(&mut self) -> (view: MatrixViewMut<'_, A::T>)
        requires
            old(self).wf(),
        ensures
            view.wf(),
            view.rows == old(self).dim,
            view.cols == old(self).dim,
            view.data@ == old(self).m@,
            final(self).m@ == final(view.data)@,
            final(self).dim == old(self).dim,
            final(self).decay == old(self).decay,
            final(self).lr == old(self).lr,
    {
        MatrixViewMut::new(self.m.as_mut_slice(), self.dim, self.dim)
    }

    /// Associative Recall: m_t = M * h
    /// Reads associative context vector from memory using current hidden state.
    pub fn recall(&self, h: &[A::T], out_m: &mut [A::T])
        requires
            lawful::<A>(),
            self.wf(),
            h@.len() == self.dim,
            old(out_m)@.len() == self.dim,
        ensures
            final(out_m)@ == matvec_of::<A>(self.m@, self.dim as nat, h@),
    {
        let view = self.as_view();
        matvec::<A>(&view, h, out_m);
    }

    /// Online Hebbian Write (fused decay + rank-1 update):
    /// M = lambda * M + eta * (h ⊗ h^T)
    /// Completely zero dynamic allocation; single contiguous pass over matrix memory.
    pub fn update(&mut self, h: &[A::T])
        requires
            lawful::<A>(),
            old(self).wf(),
            h@.len() == old(self).dim,
        ensures
            final(self).wf(),
            final(self).dim == old(self).dim,
            final(self).decay == old(self).decay,
            final(self).lr == old(self).lr,
            final(self).m@ == hebbian_of::<A>(old(self).m@, h@, old(self).decay, old(self).lr),
    {
        let (decay, lr) = (self.decay, self.lr);
        hebbian_fused_update::<A>(self.m.as_mut_slice(), self.dim, h, decay, lr);
    }

    /// Compute Frobenius norm: ||M||_F = sqrt(sum(M_ij^2))
    pub fn frobenius_norm(&self) -> (norm: A::T)
        requires
            lawful::<A>(),
        ensures
            norm == frobenius_of::<A>(self.m@),
    {
        A::sqrt(add_up_squares::<A>(self.m.as_slice()))
    }

    /// Normalize memory matrix by its Frobenius norm if it exceeds max_norm.
    pub fn clip_frobenius(&mut self, max_norm: A::T)
        requires
            lawful::<A>(),
            old(self).wf(),
        ensures
            final(self).wf(),
            final(self).dim == old(self).dim,
            final(self).decay == old(self).decay,
            final(self).lr == old(self).lr,
            final(self).m@ == ({
                let norm = frobenius_of::<A>(old(self).m@);
                if s_exceeds::<A>(norm, max_norm) && s_exceeds::<A>(norm, s_lit::<A>(1, 8)) {
                    scaled::<A>(old(self).m@, s_over::<A>(max_norm, norm))
                } else {
                    old(self).m@
                }
            }),
    {
        let norm = self.frobenius_norm();
        let floor = A::lit(1, 8);
        if A::exceeds(norm, max_norm) && A::exceeds(norm, floor) {
            let scale = A::over(max_norm, norm);
            vec_scale::<A>(self.m.as_mut_slice(), scale);
        }
    }

    /// Online Oja's rule update:
    /// ΔM = η * (h - M*h) * h^T
    /// Prevents unbounded growth of eigenvalues while learning principal components.
    pub fn update_oja(&mut self, h: &[A::T], scratch_recall: &mut [A::T])
        requires
            lawful::<A>(),
            old(self).wf(),
            h@.len() == old(self).dim,
            old(scratch_recall)@.len() == old(self).dim,
        ensures
            final(self).wf(),
            final(self).dim == old(self).dim,
            final(self).decay == old(self).decay,
            final(self).lr == old(self).lr,
            final(scratch_recall)@ == oja_error::<A>(old(self).m@, h@),
            final(self).m@ == outer_added::<A>(
                old(self).m@,
                oja_error::<A>(old(self).m@, h@),
                h@,
                old(self).lr,
            ),
    {
        // 1. recall = M * h
        self.recall(h, scratch_recall);
        let ghost recalled = scratch_recall@;
        // 2. error = h - recall
        let mut i: usize = 0;
        while i < h.len()
            invariant
                lawful::<A>(),
                i <= h@.len(),
                scratch_recall@.len() == h@.len(),
                recalled.len() == h@.len(),
                forall|j: int|
                    0 <= j < i ==> #[trigger] scratch_recall@[j] == s_minus::<A>(
                        h@[j],
                        recalled[j],
                    ),
                forall|j: int| i <= j < h@.len() ==> #[trigger] scratch_recall@[j] == recalled[j],
            decreases h@.len() - i,
        {
            scratch_recall[i] = A::minus(h[i], scratch_recall[i]);
            i += 1;
        }
        assert(scratch_recall@ =~= oja_error::<A>(self.m@, h@));
        // 3. M += lr * (error ⊗ h^T)
        let lr = self.lr;
        let mut view = self.as_view_mut();
        outer_product_accumulate::<A>(scratch_recall, h, lr, &mut view);
    }
}

/// The squares of values, summed up.
pub(crate) fn add_up_squares<A: Arith>(values: &[A::T]) -> (sum: A::T)
    requires
        lawful::<A>(),
    ensures
        sum == sum_of_squares::<A>(values@, values@.len()),
{
    let mut sum_sq = A::lit(0, 0);
    let mut i: usize = 0;
    while i < values.len()
        invariant
            lawful::<A>(),
            i <= values@.len(),
            sum_sq == sum_of_squares::<A>(values@, i as nat),
        decreases values@.len() - i,
    {
        sum_sq = A::plus(sum_sq, A::times(values[i], values[i]));
        i += 1;
    }
    sum_sq
}

/// One row of the fused Hebbian update: row_j = lambda * row_j + scale * h_j
fn hebbian_update_row<A: Arith>(row: &mut [A::T], h: &[A::T], decay: A::T, scale: A::T)
    requires
        lawful::<A>(),
        old(row)@.len() == h@.len(),
    ensures
        final(row)@ == Seq::new(
            h@.len(),
            |c: int| s_plus::<A>(s_times::<A>(decay, old(row)@[c]), s_times::<A>(scale, h@[c])),
        ),
{
    let ghost before = row@;
    let n: usize = row.len();
    let mut c: usize = 0;
    while c < n
        invariant
            lawful::<A>(),
            c <= n,
            n == h@.len(),
            row@.len() == n,
            before.len() == n,
            forall|j: int|
                0 <= j < c ==> #[trigger] row@[j] == s_plus::<A>(
                    s_times::<A>(decay, before[j]),
                    s_times::<A>(scale, h@[j]),
                ),
            forall|j: int| c <= j < n ==> #[trigger] row@[j] == before[j],
        decreases n - c,
    {
        row[c] = A::plus(A::times(decay, row[c]), A::times(scale, h[c]));
        c += 1;
    }
    assert(row@ =~= Seq::new(
        h@.len(),
        |c: int| s_plus::<A>(s_times::<A>(decay, before[c]), s_times::<A>(scale, h@[c])),
    ));
}

/// Fused Hebbian update kernel: M_ij = lambda * M_ij + eta * h_i * h_j
pub fn hebbian_fused_update<A: Arith>(
    m_data: &mut [A::T],
    dim: usize,
    h: &[A::T],
    decay: A::T,
    lr: A::T,
)
    requires
        lawful::<A>(),
        h@.len() == dim,
        old(m_data)@.len() == dim * dim,
    ensures
        final(m_data)@ == hebbian_of::<A>(old(m_data)@, h@, decay, lr),
        final(m_data)@.len() == dim * dim,
{
    let ghost before = m_data@;
    let ghost n = dim as nat;
    let mut view = MatrixViewMut::new(m_data, dim, dim);
    let ghost returned = final(view.data)@;
    let mut r: usize = 0;
    while r < dim
        invariant
            lawful::<A>(),
            view.wf(),
            view.rows == dim,
            view.cols == dim,
            n == dim,
            h@.len() == dim,
            before.len() == dim * dim,
            r <= dim,
            forall|q: int|
                0 <= q < r ==> #[trigger] row_of(view.elements(), n, q) == hebbian_row::<A>(
                    before,
                    h@,
                    decay,
                    lr,
                    q,
                ),
            forall|q: int|
                r <= q < dim ==> #[trigger] row_of(view.elements(), n, q) == row_of(
                    before,
                    n,
                    q,
                ),
            final(view.data)@ == returned,
        decreases dim - r,
    {
        let scale = A::times(lr, h[r]);
        let ghost data = view.elements();
        assert(row_of(data, n, r as int) == row_of(before, n, r as int));
        let row = view.row_mut(r);
        hebbian_update_row::<A>(row, h, decay, scale);
        proof {
            let new = hebbian_row::<A>(before, h@, decay, lr, r as int);
            lemma_row_bounds(n, n, r as int);
            lemma_with_row(data, n, n, r as int, new);
            assert(view.elements() == with_row(data, n, r as int, new));
        }
        r += 1;
    }
    proof {
        let after = hebbian_of::<A>(before, h@, decay, lr);
        let f = |r: int, c: int| hebbian_row::<A>(before, h@, decay, lr, r)[c];
        assert forall|q: int| 0 <= q < dim implies #[trigger] row_of(view.elements(), n, q)
            == row_of(after, n, q) by {
            lemma_matrix_row(n, n, f, q);
            assert(Seq::new(n, |c: int| f(q, c)) =~= hebbian_row::<A>(before, h@, decay, lr, q));
        }
        lemma_rows_determine(n, n, view.elements(), after);
    }
}

} // verus!
