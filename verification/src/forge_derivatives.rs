//! The gradients of FORGE are the derivatives of what it computes: through its feed-forward layers
//! and its normalization, through the reads of its memory, and through what was written there.

use vstd::prelude::*;
use crate::arith::{
    Arith, one, s_count, s_exp, s_lit, s_minus, s_neg_inf, s_negate, s_over, s_plus, s_sqrt,
};
use crate::derivatives::{
    counts, cross_entropy_gradients_are_derivatives, softmax_moves_with_its_logits,
};
use crate::exact::{
    exact, lemma_commutes, lemma_distributes, lemma_neutral, lemma_num_dot, lemma_regroups,
    lemma_total_plus, lemma_total_same, lemma_total_split, lemma_total_times, lemma_total_zero,
    power_of_ten, total,
};
use crate::forge_backprop::{
    SequenceBack, chain_back, row_raised, same_block_weights, trail_of,
};
use crate::forge_model::{
    ForgeBlockValues, ForgeGradValues, ForgeModelValues, gated_up, passed, rms_back, rms_factor, rms_normed,
    silu_of,
};
use crate::forge_trainer::{ForgeGradSet, d_gate_of, d_up_of, sig_of};
use crate::gru_derivatives::lemma_still_inputs;
use crate::hebbian::sum_of_squares;
use crate::layer::times_each;
use crate::matvec::{matvec_of, matvec_transposed_of, outer_added, rows_added, summed};
use crate::memory_backward::{
    ReadValues, SlotValues, coarse_before, fine_before, keys_back, query_back, shares_back,
    softmax_back, vals_back, written_back,
};
use crate::memory_laws::lemma_sum_of_squares;
use crate::mrm::{MrmValues, averaged, bank_read, bank_scores, nearest_of, slot_score};
use crate::slopes::Calculus;
use crate::softmax::{cross_entropy_grad_of, cross_entropy_of, softmax_of};
use crate::tensor::{add_scaled, dot_of, lemma_row_bounds, row_of, with_row, zeros};

verus! {

/// Gradients and weights that differ in one row.
proof fn lemma_along_with_row<A: Arith>(
    c: Calculus<A>,
    g: Seq<A::T>,
    w: Seq<A::T>,
    rows: nat,
    d: nat,
    r: int,
    g_row: Seq<A::T>,
    w_row: Seq<A::T>,
)
    requires
        c.holds(),
        0 <= r < rows,
        w.len() == rows * d,
        g.len() == w.len(),
        g_row.len() == d,
        w_row.len() == d,
    ensures
        with_row(g, d, r, g_row).len() == g.len(),
        with_row(w, d, r, w_row).len() == w.len(),
        row_of(g, d, r).len() == d,
        row_of(w, d, r).len() == d,
        c.along(with_row(g, d, r, g_row), with_row(w, d, r, w_row)) == c.along(g, w) - c.along(
            row_of(g, d, r),
            row_of(w, d, r),
        ) + c.along(g_row, w_row),
        c.along(with_row(g, d, r, g_row), w) == c.along(g, w) - c.along(
            row_of(g, d, r),
            row_of(w, d, r),
        ) + c.along(g_row, row_of(w, d, r)),
        c.along(g, with_row(w, d, r, w_row)) == c.along(g, w) - c.along(
            row_of(g, d, r),
            row_of(w, d, r),
        ) + c.along(row_of(g, d, r), w_row),
{
    lemma_row_bounds(rows, d, r);
    lemma_along_replaced(c, g, w, rows, d, r, g_row, w_row);
    lemma_along_replaced(c, g, w, rows, d, r, g_row, row_of(w, d, r));
    lemma_along_replaced(c, g, w, rows, d, r, row_of(g, d, r), w_row);
    assert(with_row(w, d, r, row_of(w, d, r)) =~= w);
    assert(with_row(g, d, r, row_of(g, d, r)) =~= g);
}

/// Gradients and weights that differ in one row, both.
proof fn lemma_along_replaced<A: Arith>(
    c: Calculus<A>,
    g: Seq<A::T>,
    w: Seq<A::T>,
    rows: nat,
    d: nat,
    r: int,
    g_row: Seq<A::T>,
    w_row: Seq<A::T>,
)
    requires
        0 <= r < rows,
        w.len() == rows * d,
        g.len() == w.len(),
        g_row.len() == d,
        w_row.len() == d,
    ensures
        c.along(with_row(g, d, r, g_row), with_row(w, d, r, w_row)) == c.along(g, w) - c.along(
            row_of(g, d, r),
            row_of(w, d, r),
        ) + c.along(g_row, w_row),
{
    lemma_row_bounds(rows, d, r);
    let num = c.num;
    let slope = c.slope;
    let (g2, w2) = (with_row(g, d, r, g_row), with_row(w, d, r, w_row));
    let (gr, wr) = (row_of(g, d, r), row_of(w, d, r));
    assert(g2.len() == g.len() && w2.len() == w.len());
    let front = (r * d) as nat;
    let rest = (w.len() - front - d) as nat;
    let f = |i: int| num(g[i]) * slope(w[i]);
    let h = |i: int| num(g2[i]) * slope(w2[i]);
    let f_here = |j: int| num(gr[j]) * slope(wr[j]);
    let h_here = |j: int| num(g_row[j]) * slope(w_row[j]);
    let f_behind = |j: int| f(front + d + j);
    let h_behind = |j: int| h(front + d + j);
    assert forall|j: int| 0 <= j < d implies #[trigger] f_here(j) == f(front + j) by {}
    assert forall|j: int| 0 <= j < d implies #[trigger] h_here(j) == h(front + j) by {
        assert(g2[front + j] == g_row[j] && w2[front + j] == w_row[j]);
    }
    lemma_total_split(front, d, f, f_here);
    lemma_total_split(front, d, h, h_here);
    lemma_total_split(front + d, rest, f, f_behind);
    lemma_total_split(front + d, rest, h, h_behind);
    assert forall|i: int| 0 <= i < front implies #[trigger] f(i) == h(i) by {
        assert(g2[i] == g[i] && w2[i] == w[i]);
    }
    lemma_total_same(front, f, h);
    assert forall|j: int| 0 <= j < rest implies #[trigger] f_behind(j) == h_behind(j) by {
        assert(g2[front + d + j] == g[front + d + j] && w2[front + d + j] == w[front + d + j]);
    }
    lemma_total_same(rest, f_behind, h_behind);
}

/// A row of the gradients that is raised by a vector.
proof fn lemma_along_raised<A: Arith>(
    c: Calculus<A>,
    g: Seq<A::T>,
    w: Seq<A::T>,
    rows: nat,
    d: nat,
    r: int,
    delta: Seq<A::T>,
    scale: A::T,
)
    requires
        c.holds(),
        0 <= r < rows,
        w.len() == rows * d,
        g.len() == w.len(),
        delta.len() == d,
    ensures
        row_raised::<A>(g, d, r, delta, scale).len() == g.len(),
        c.along(row_raised::<A>(g, d, r, delta, scale), w) == c.along(g, w) + (c.num)(scale)
            * c.along(delta, row_of(w, d, r)),
{
    lemma_row_bounds(rows, d, r);
    let row = row_of(g, d, r);
    lemma_along_with_row(c, g, w, rows, d, r, add_scaled::<A>(row, delta, scale), row);
    c.lemma_along_add_scaled(row, delta, scale, row_of(w, d, r));
}

/// The part of a gradient along the first weights.
pub open spec fn along_first<A: Arith>(
    c: Calculus<A>,
    g: Seq<A::T>,
    w: Seq<A::T>,
    n: nat,
) -> real {
    total(n, |i: int| (c.num)(g[i]) * (c.slope)(w[i]))
}

/// What is read from a bank moves with the shares of its slots and with their values.
proof fn lemma_bank_read<A: Arith>(
    c: Calculus<A>,
    start: Seq<A::T>,
    vals: Seq<A::T>,
    probs: Seq<A::T>,
    u: Seq<A::T>,
    d_vals: Seq<A::T>,
    k: nat,
    n: nat,
)
    requires
        c.holds(),
        u.len() == start.len(),
        vals.len() == k * start.len(),
        d_vals.len() == vals.len(),
        probs.len() == k,
        n <= k,
    ensures
        bank_read::<A>(start, vals, probs, n).len() == start.len(),
        vals_back::<A>(d_vals, probs, u, n).len() == d_vals.len(),
        c.along(u, bank_read::<A>(start, vals, probs, n)) == c.along(u, start) + along_first(
            c,
            shares_back::<A>(vals, probs, u, k),
            probs,
            n,
        ) + c.along(vals_back::<A>(d_vals, probs, u, n), vals) - c.along(d_vals, vals),
    decreases n,
{
    c.lemma_exact();
    if n > 0 {
        lemma_bank_read(c, start, vals, probs, u, d_vals, k, (n - 1) as nat);
        let d = start.len();
        lemma_row_bounds(k, d, n - 1);
        let row = row_of(vals, d, n - 1);
        let p = probs[n - 1];
        let before = bank_read::<A>(start, vals, probs, (n - 1) as nat);
        let g = vals_back::<A>(d_vals, probs, u, (n - 1) as nat);
        c.lemma_through_add_scaled(u, before, row, p);
        lemma_along_raised(c, g, vals, k, d, n - 1, u, p);
        lemma_commutes((c.slope)(p), (c.num)(dot_of::<A>(u, row)));
        lemma_neutral((c.slope)(p));
    }
}

/// The scores of a bank move with the query and with its keys.
proof fn lemma_bank_scores<A: Arith>(
    c: Calculus<A>,
    q: Seq<A::T>,
    keys: Seq<A::T>,
    d_scores: Seq<A::T>,
    start: Seq<A::T>,
    d_keys: Seq<A::T>,
    k: nat,
    n: nat,
)
    requires
        c.holds(),
        (c.slope)(s_neg_inf::<A>()) == 0real,
        start.len() == q.len(),
        keys.len() == k * q.len(),
        d_keys.len() == keys.len(),
        n <= k,
    ensures
        query_back::<A>(start, keys, d_scores, n).len() == q.len(),
        keys_back::<A>(d_keys, keys, d_scores, q, n).len() == d_keys.len(),
        along_first(c, d_scores, bank_scores::<A>(q, keys, k), n) == c.along(
            query_back::<A>(start, keys, d_scores, n),
            q,
        ) - c.along(start, q) + c.along(keys_back::<A>(d_keys, keys, d_scores, q, n), keys)
            - c.along(d_keys, keys),
    decreases n,
{
    if n > 0 {
        lemma_bank_scores(c, q, keys, d_scores, start, d_keys, k, (n - 1) as nat);
        let d = q.len();
        lemma_row_bounds(k, d, n - 1);
        let key = row_of(keys, d, n - 1);
        let s = d_scores[n - 1];
        let before = query_back::<A>(start, keys, d_scores, (n - 1) as nat);
        let g = keys_back::<A>(d_keys, keys, d_scores, q, (n - 1) as nat);
        assert(bank_scores::<A>(q, keys, k)[n - 1] == slot_score::<A>(q, key));
        c.lemma_along_add_scaled(before, key, s, q);
        lemma_along_raised(c, g, keys, k, d, n - 1, q, s);
        c.lemma_slope_dot(q, key);
        lemma_neutral((c.num)(s));
        let x = |i: int| (c.slope)(q[i]) * (c.num)(key[i]);
        let y = |i: int| (c.num)(key[i]) * (c.slope)(q[i]);
        assert forall|i: int| 0 <= i < d implies #[trigger] x(i) == y(i) by {
            lemma_commutes((c.slope)(q[i]), (c.num)(key[i]));
        }
        lemma_total_same(d, x, y);
        lemma_distributes((c.num)(s), c.along(key, q), c.along(q, key));
    }
}

/// The gradient of a softmax is its derivative.
pub proof fn softmax_gradients_are_derivatives<A: Arith>(
    c: Calculus<A>,
    scores: Seq<A::T>,
    d_probs: Seq<A::T>,
)
    requires
        c.holds(),
        scores.len() > 0,
        d_probs.len() == scores.len(),
    ensures
        c.along(d_probs, softmax_of::<A>(scores)) == c.along(
            softmax_back::<A>(softmax_of::<A>(scores), d_probs),
            scores,
        ),
{
    c.lemma_exact();
    let num = c.num;
    let slope = c.slope;
    let probs = softmax_of::<A>(scores);
    let n = scores.len();
    let back = softmax_back::<A>(probs, d_probs);
    softmax_moves_with_its_logits(c, scores, 0);
    assert(probs.len() == n);
    lemma_num_dot::<A>(num, probs, d_probs);
    let mean = num(dot_of::<A>(probs, d_probs));
    let drift = c.along(probs, scores);
    let f = |i: int| num(d_probs[i]) * slope(probs[i]);
    let g = |i: int| num(back[i]) * slope(scores[i]);
    let both = |i: int| (num(probs[i]) * num(d_probs[i])) * slope(scores[i]);
    let pd = |i: int| num(probs[i]) * num(d_probs[i]);
    let px = |i: int| num(probs[i]) * slope(scores[i]);
    let drifted = |i: int| (-drift) * pd(i);
    let meant = |i: int| (-mean) * px(i);
    assert forall|i: int| 0 <= i < n implies #[trigger] f(i) == both(i) + drifted(i) by {
        softmax_moves_with_its_logits(c, scores, i);
        let (p, x, v) = (num(probs[i]), slope(scores[i]), num(d_probs[i]));
        assert(slope(probs[i]) == p * (x - drift));
        lemma_regroups(v, p, x - drift);
        lemma_commutes(v, p);
        let w = p * v;
        lemma_distributes(w, x, drift);
        lemma_commutes(w, drift);
        assert((-drift) * w == -(drift * w)) by (nonlinear_arith);
    }
    assert forall|i: int| 0 <= i < n implies #[trigger] g(i) == both(i) + meant(i) by {
        reveal(exact);
        let (p, x, v) = (num(probs[i]), slope(scores[i]), num(d_probs[i]));
        assert(num(back[i]) == p * (v - mean));
        lemma_distributes(p, v, mean);
        let (a, b) = (p * v, p * mean);
        lemma_commutes(a - b, x);
        lemma_distributes(x, a, b);
        lemma_commutes(x, a);
        lemma_commutes(x, b);
        lemma_regroups(p, mean, x);
        lemma_commutes(p * x, mean);
        let w = p * x;
        assert((-mean) * w == -(mean * w)) by (nonlinear_arith);
    }
    lemma_total_plus(n, both, drifted, f);
    lemma_total_plus(n, both, meant, g);
    lemma_total_times(n, -drift, pd, drifted);
    lemma_total_times(n, -mean, px, meant);
    assert(total(n, pd) == mean && total(n, px) == drift);
    lemma_commutes(drift, mean);
    assert((-drift) * mean == -(drift * mean) && (-mean) * drift == -(mean * drift))
        by (nonlinear_arith);
}

/// The gradients at the slots along what the slots of a memory hold.
pub open spec fn slots_along<A: Arith>(
    c: Calculus<A>,
    g: SlotValues<A::T>,
    m: MrmValues<A>,
) -> real {
    c.along(g.fine_keys, m.fine_keys) + c.along(g.fine_vals, m.fine_vals) + c.along(
        g.coarse_keys,
        m.coarse_keys,
    ) + c.along(g.coarse_vals, m.coarse_vals)
}

/// What a memory takes as given while its gradients are worked out: its decay and its fast weights
/// stay as they are, and a dead slot has a score that does not move.
pub open spec fn is_given<A: Arith>(c: Calculus<A>, m: MrmValues<A>) -> bool {
    &&& (c.slope)(m.coarse_decay) == 0real
    &&& (c.slope)(s_neg_inf::<A>()) == 0real
    &&& forall|i: int| 0 <= i < m.fw_u.len() ==> (c.slope)(#[trigger] m.fw_u[i]) == 0real
    &&& forall|i: int| 0 <= i < m.fw_v.len() ==> (c.slope)(#[trigger] m.fw_v[i]) == 0real
}

/// The gradients of the weights of a memory along them.
pub open spec fn memory_along<A: Arith>(
    c: Calculus<A>,
    g: ForgeGradValues<A::T>,
    m: MrmValues<A>,
) -> real {
    c.along(g.wq, m.w_q) + c.along(g.wk, m.w_k) + c.along(g.wv, m.w_v) + c.along(g.wo, m.w_o)
}

/// What is read moves with the query and with the slots.
#[verifier::rlimit(30)]
#[verifier::spinoff_prover]
proof fn lemma_read<A: Arith>(
    c: Calculus<A>,
    m: MrmValues<A>,
    q: Seq<A::T>,
    u: Seq<A::T>,
    slots: SlotValues<A::T>,
)
    requires
        c.holds(),
        m.wf(),
        m.k_fine + m.k_coarse > 0,
        is_given(c, m),
        m.holds_grads(slots),
        q.len() == m.d,
        u.len() == m.d,
    ensures
        ({
            let (kf, kc) = (m.k_fine, m.k_coarse);
            let probs = m.probs_of(q);
            let (fp, cp) = (probs.take(kf as int), probs.skip(kf as int));
            let d_scores = softmax_back::<A>(
                probs,
                shares_back::<A>(m.fine_vals, fp, u, kf) + shares_back::<A>(
                    m.coarse_vals,
                    cp,
                    u,
                    kc,
                ),
            );
            let (df, dc) = (d_scores.take(kf as int), d_scores.skip(kf as int));
            let d_q = query_back::<A>(
                query_back::<A>(zeros::<A>(m.d), m.fine_keys, df, kf),
                m.coarse_keys,
                dc,
                kc,
            );
            let after = SlotValues {
                fine_keys: keys_back::<A>(slots.fine_keys, m.fine_keys, df, q, kf),
                fine_vals: vals_back::<A>(slots.fine_vals, fp, u, kf),
                coarse_keys: keys_back::<A>(slots.coarse_keys, m.coarse_keys, dc, q, kc),
                coarse_vals: vals_back::<A>(slots.coarse_vals, cp, u, kc),
            };
            &&& m.read_of(q).len() == m.d
            &&& d_q.len() == m.d
            &&& m.holds_grads(after)
            &&& c.along(u, m.read_of(q)) == c.along(d_q, q) + slots_along(c, after, m)
                - slots_along(c, slots, m)
        }),
{
    c.lemma_exact();
    let (kf, kc) = (m.k_fine, m.k_coarse);
    let (fs, cs) = (
        bank_scores::<A>(q, m.fine_keys, kf),
        bank_scores::<A>(q, m.coarse_keys, kc),
    );
    let scores = fs + cs;
    let probs = m.probs_of(q);
    let (fp, cp) = (probs.take(kf as int), probs.skip(kf as int));
    softmax_moves_with_its_logits(c, scores, 0);
    assert(probs.len() == kf + kc);
    assert(probs =~= fp + cp);
    let start = zeros::<A>(m.d);
    let fine = bank_read::<A>(start, m.fine_vals, fp, kf);
    lemma_bank_read(c, start, m.fine_vals, fp, u, slots.fine_vals, kf, kf);
    lemma_bank_read(c, fine, m.coarse_vals, cp, u, slots.coarse_vals, kc, kc);
    let (sf, sc) = (
        shares_back::<A>(m.fine_vals, fp, u, kf),
        shares_back::<A>(m.coarse_vals, cp, u, kc),
    );
    let d_probs = sf + sc;
    c.lemma_along_both(d_probs, fp, cp);
    assert(d_probs.take(kf as int) =~= sf);
    assert(d_probs.skip(kf as int) =~= sc);
    softmax_gradients_are_derivatives(c, scores, d_probs);
    let d_scores = softmax_back::<A>(probs, d_probs);
    let (df, dc) = (d_scores.take(kf as int), d_scores.skip(kf as int));
    c.lemma_along_both(d_scores, fs, cs);
    lemma_bank_scores(c, q, m.fine_keys, df, start, slots.fine_keys, kf, kf);
    let q1 = query_back::<A>(start, m.fine_keys, df, kf);
    lemma_bank_scores(c, q, m.coarse_keys, dc, q1, slots.coarse_keys, kc, kc);
    c.lemma_along_nothing(q);
    assert(c.along(u, start) == 0real) by {
        lemma_still_inputs(c, u, start);
    }
}

/// What comes out of a memory moves with what is read, with what went in, and with the weights
/// behind it.
proof fn lemma_output<A: Arith>(
    c: Calculus<A>,
    m: MrmValues<A>,
    attn: Seq<A::T>,
    h: Seq<A::T>,
    u: Seq<A::T>,
)
    requires
        c.holds(),
        m.wf(),
        is_given(c, m),
        attn.len() == m.d,
        h.len() == m.d,
        u.len() == m.d,
    ensures
        m.read_back(u).len() == m.d,
        m.output_of(attn, h).len() == m.d,
        c.along(u, m.output_of(attn, h)) == c.weights_move(m.w_o, u, attn) + c.along(
            m.read_back(u),
            attn,
        ) + c.along(u, h),
{
    c.lemma_exact();
    let d = m.d;
    let projected = matvec_of::<A>(m.w_o, d, attn);
    c.lemma_linear(m.w_o, u, attn);
    let back = matvec_transposed_of::<A>(m.w_o, d, u);
    c.lemma_transposed(m.w_o, u, attn);
    let alpha = dot_of::<A>(m.fw_v, attn);
    let adapted = if m.fw_active {
        add_scaled::<A>(projected, m.fw_u, alpha)
    } else {
        projected
    };
    c.lemma_through_add_scaled(u, adapted, h, one::<A>());
    lemma_neutral(c.along(u, h));
    lemma_neutral((c.num)(dot_of::<A>(u, h)));
    if m.fw_active {
        c.lemma_through_add_scaled(u, projected, m.fw_u, alpha);
        lemma_still_inputs(c, u, m.fw_u);
        lemma_neutral((c.num)(alpha));
        c.lemma_slope_dot(m.fw_v, attn);
        let still = |i: int| (c.slope)(m.fw_v[i]) * (c.num)(attn[i]);
        assert forall|i: int| 0 <= i < d implies #[trigger] still(i) == 0real by {
            assert((c.slope)(m.fw_v[i]) == 0real);
            lemma_neutral((c.num)(attn[i]));
        }
        lemma_total_zero(d, still);
        let x = c.along(m.fw_v, attn);
        c.lemma_along_add_scaled(back, m.fw_v, dot_of::<A>(m.fw_u, u), attn);
        lemma_num_dot::<A>(c.num, u, m.fw_u);
        lemma_num_dot::<A>(c.num, m.fw_u, u);
        let a = |i: int| (c.num)(u[i]) * (c.num)(m.fw_u[i]);
        let b = |i: int| (c.num)(m.fw_u[i]) * (c.num)(u[i]);
        assert forall|i: int| 0 <= i < d implies #[trigger] a(i) == b(i) by {
            lemma_commutes((c.num)(u[i]), (c.num)(m.fw_u[i]));
        }
        lemma_total_same(d, a, b);
        lemma_commutes(x, (c.num)(dot_of::<A>(u, m.fw_u)));
    }
}

/// The slots after a write move with the slots before it and with what was written: one kind of
/// slots, the fine ones and the coarse ones.
#[verifier::rlimit(30)]
#[verifier::spinoff_prover]
proof fn lemma_written<A: Arith>(
    c: Calculus<A>,
    d: nat,
    kf: nat,
    kc: nat,
    decay: A::T,
    r: ReadValues<A::T>,
    fine: Seq<A::T>,
    coarse: Seq<A::T>,
    x: Seq<A::T>,
    g_fine: Seq<A::T>,
    g_coarse: Seq<A::T>,
)
    requires
        c.holds(),
        (c.slope)(decay) == 0real,
        fine.len() == kf * d,
        coarse.len() == kc * d,
        g_fine.len() == fine.len(),
        g_coarse.len() == coarse.len(),
        x.len() == d,
        r.written ==> 0 <= r.fine_slot < kf,
        0 <= r.coarse_slot < kc,
    ensures
        ({
            let fine_after = if r.written {
                with_row(fine, d, r.fine_slot, x)
            } else {
                fine
            };
            let coarse_after = with_row(
                coarse,
                d,
                r.coarse_slot,
                averaged::<A>(decay, row_of(coarse, d, r.coarse_slot), x),
            );
            let back = written_back::<A>(d, decay, r, g_fine, g_coarse);
            &&& back.len() == d
            &&& fine_before::<A>(d, r, g_fine).len() == fine.len()
            &&& coarse_before::<A>(d, decay, r, g_coarse).len() == coarse.len()
            &&& c.along(g_fine, fine_after) + c.along(g_coarse, coarse_after) == c.along(back, x)
                + c.along(fine_before::<A>(d, r, g_fine), fine) + c.along(
                coarse_before::<A>(d, decay, r, g_coarse),
                coarse,
            )
        }),
{
    c.lemma_exact();
    let num = c.num;
    let slope = c.slope;
    let s = r.coarse_slot;
    lemma_row_bounds(kc, d, s);
    let (row, g_row) = (row_of(coarse, d, s), row_of(g_coarse, d, s));
    let mixed = averaged::<A>(decay, row, x);
    let k = num(decay);
    let rest = s_minus::<A>(one::<A>(), decay);
    lemma_along_with_row(c, g_coarse, coarse, kc, d, s, times_each::<A>(decay, g_row), mixed);
    c.lemma_along_scaled(g_row, decay, row);
    let part = times_each::<A>(rest, g_row);
    c.lemma_along_scaled(g_row, rest, x);
    assert(num(rest) == 1real - k && slope(rest) == 0real) by {
        reveal(exact);
        reveal(Calculus::holds);
    }
    assert(c.along(g_row, mixed) == k * c.along(g_row, row) + (1real - k) * c.along(g_row, x)) by {
        let f = |i: int| num(g_row[i]) * slope(row[i]);
        let g = |i: int| num(g_row[i]) * slope(x[i]);
        let kf = |i: int| k * f(i);
        let rg = |i: int| (1real - k) * g(i);
        let h = |i: int| num(g_row[i]) * slope(mixed[i]);
        assert forall|i: int| 0 <= i < d implies #[trigger] h(i) == kf(i) + rg(i) by {
            let (a, b, v) = (slope(row[i]), slope(x[i]), num(g_row[i]));
            assert(slope(mixed[i]) == k * a + (1real - k) * b) by {
                reveal(Calculus::holds);
                lemma_neutral(num(row[i]));
                lemma_neutral(num(x[i]));
            }
            lemma_distributes(v, k * a, (1real - k) * b);
            lemma_commutes(v, k * a);
            lemma_commutes(v, (1real - k) * b);
            lemma_regroups(k, a, v);
            lemma_regroups(1real - k, b, v);
            lemma_commutes(a, v);
            lemma_commutes(b, v);
        }
        lemma_total_plus(d, kf, rg, h);
        lemma_total_times(d, k, f, kf);
        lemma_total_times(d, 1real - k, g, rg);
    }
    if r.written {
        lemma_row_bounds(kf, d, r.fine_slot);
        lemma_along_with_row(c, g_fine, fine, kf, d, r.fine_slot, zeros::<A>(d), x);
        c.lemma_along_nothing(row_of(fine, d, r.fine_slot));
        c.lemma_along_summed(part, row_of(g_fine, d, r.fine_slot), x);
    }
}

/// The best of the first matches is one of them.
proof fn lemma_nearest_slot<A: Arith>(keys: Seq<A::T>, d: nat, key: Seq<A::T>, n: nat)
    requires
        n > 0,
    ensures
        0 <= nearest_of::<A>(keys, d, key, n).0 < n,
    decreases n,
{
    if n > 1 {
        lemma_nearest_slot::<A>(keys, d, key, (n - 1) as nat);
    } else {
        assert(nearest_of::<A>(keys, d, key, 0).0 == 0);
    }
}

/// The gradients of a memory are the derivatives of what it puts out and of what it then holds:
/// along any direction in which its weights, its slots and its input move, what `d_out` makes of
/// the slope of its output and `slots` of the slopes of its slots after the token is the sum of the
/// gradients, each times the slope of what it is the gradient of. The gradients of the weights are
/// added times `scale`.
#[verifier::rlimit(60)]
#[verifier::spinoff_prover]
pub proof fn memory_gradients_are_derivatives<A: Arith>(
    c: Calculus<A>,
    m: MrmValues<A>,
    h: Seq<A::T>,
    d_out: Seq<A::T>,
    scale: A::T,
    slots: SlotValues<A::T>,
    g: ForgeGradValues<A::T>,
)
    requires
        c.holds(),
        m.wf(),
        m.k_fine > 0,
        m.k_coarse > 0,
        is_given(c, m),
        m.holds_grads(slots),
        h.len() == m.d,
        d_out.len() == m.d,
        g.wq.len() == m.w_q.len(),
        g.wk.len() == m.w_k.len(),
        g.wv.len() == m.w_v.len(),
        g.wo.len() == m.w_o.len(),
    ensures
        ({
            let b = m.back(m.read_at(h), h, d_out, scale, slots, g);
            &&& (c.num)(scale) * (c.along(d_out, m.out_of(h)) + slots_along(
                c,
                slots,
                m.next(h, false),
            )) == memory_along(
                c,
                ForgeGradValues { wq: b.wq, wk: b.wk, wv: b.wv, wo: b.wo, ..g },
                m,
            ) - memory_along(c, g, m) + (c.num)(scale) * (c.along(b.d_h, h) + slots_along(
                c,
                b.slots,
                m,
            ))
            &&& b.d_h.len() == m.d
            &&& m.holds_grads(b.slots)
            &&& b.wq.len() == g.wq.len() && b.wk.len() == g.wk.len() && b.wv.len() == g.wv.len()
                && b.wo.len() == g.wo.len()
        }),
{
    c.lemma_exact();
    let (d, kf, kc) = (m.d, m.k_fine, m.k_coarse);
    let decay = m.coarse_decay;
    let after = m.next(h, false);
    let r = m.read_at(h);
    let at = m.with_slots(r);
    let q = m.query_of(h);
    let (key, val) = (m.key_of(h), m.value_of(h));
    lemma_nearest_slot::<A>(m.coarse_keys, d, key, kc);
    let b = m.back(r, h, d_out, scale, slots, g);
    assert(0 <= m.next_slot() < kf) by (nonlinear_arith)
        requires
            kf > 0,
            m.next_slot() == m.write_ptr as int % kf as int,
    ;
    lemma_row_bounds(kc, d, r.coarse_slot);
    lemma_row_bounds(kf, d, r.fine_slot);
    assert(after.wf() && at.wf());
    let attn = at.read_of(q);
    assert(attn == after.read_of(q) && at.probs_of(q) == after.probs_of(q));
    assert(m.out_of(h) == after.output_of(attn, h));
    let d_attn = m.read_back(d_out);
    assert(d_attn == after.read_back(d_out));
    assert(is_given(c, after) && is_given(c, at));
    c.lemma_transposed(m.w_o, d_out, h);
    lemma_read(c, at, q, d_attn, slots);
    lemma_output(c, after, attn, h, d_out);
    let probs = at.probs_of(q);
    let (fp, cp) = (probs.take(kf as int), probs.skip(kf as int));
    let d_scores = softmax_back::<A>(
        probs,
        shares_back::<A>(r.fine_vals, fp, d_attn, kf) + shares_back::<A>(
            r.coarse_vals,
            cp,
            d_attn,
            kc,
        ),
    );
    let (df, dc) = (d_scores.take(kf as int), d_scores.skip(kf as int));
    let d_q = query_back::<A>(
        query_back::<A>(zeros::<A>(d), r.fine_keys, df, kf),
        r.coarse_keys,
        dc,
        kc,
    );
    let held = SlotValues {
        fine_keys: keys_back::<A>(slots.fine_keys, r.fine_keys, df, q, kf),
        fine_vals: vals_back::<A>(slots.fine_vals, fp, d_attn, kf),
        coarse_keys: keys_back::<A>(slots.coarse_keys, r.coarse_keys, dc, q, kc),
        coarse_vals: vals_back::<A>(slots.coarse_vals, cp, d_attn, kc),
    };
    lemma_written(
        c,
        d,
        kf,
        kc,
        decay,
        r,
        m.fine_keys,
        m.coarse_keys,
        key,
        held.fine_keys,
        held.coarse_keys,
    );
    lemma_written(
        c,
        d,
        kf,
        kc,
        decay,
        r,
        m.fine_vals,
        m.coarse_vals,
        val,
        held.fine_vals,
        held.coarse_vals,
    );
    let d_k = written_back::<A>(d, decay, r, held.fine_keys, held.coarse_keys);
    let d_v = written_back::<A>(d, decay, r, held.fine_vals, held.coarse_vals);
    c.lemma_linear(m.w_q, d_q, h);
    c.lemma_linear(m.w_k, d_k, h);
    c.lemma_linear(m.w_v, d_v, h);
    c.lemma_along_outer(g.wq, m.w_q, d_q, h, scale);
    c.lemma_along_outer(g.wk, m.w_k, d_k, h, scale);
    c.lemma_along_outer(g.wv, m.w_v, d_v, h, scale);
    c.lemma_along_outer(g.wo, m.w_o, d_out, attn, scale);
    c.lemma_along_rows(d_out, m.w_q, d_q, h);
    let first = rows_added::<A>(d_out, m.w_q, d_q, d);
    c.lemma_along_rows(first, m.w_k, d_k, h);
    let second = rows_added::<A>(first, m.w_k, d_k, d);
    c.lemma_along_rows(second, m.w_v, d_v, h);
    let (mq, mk, mv, mo) = (
        c.weights_move(m.w_q, d_q, h),
        c.weights_move(m.w_k, d_k, h),
        c.weights_move(m.w_v, d_v, h),
        c.weights_move(m.w_o, d_out, attn),
    );
    let rest = c.along(b.d_h, h) + slots_along(c, b.slots, m);
    assert(c.along(d_out, m.out_of(h)) + slots_along(c, slots, after) == mq + mk + mv + mo + rest);
    let s = (c.num)(scale);
    lemma_distributes(s, mq + mk + mv + mo, rest);
    lemma_distributes(s, mq + mk + mv, mo);
    lemma_distributes(s, mq + mk, mv);
    lemma_distributes(s, mq, mk);
}

/// The slope of a sum of squares.
proof fn lemma_squares_move<A: Arith>(c: Calculus<A>, x: Seq<A::T>, n: nat)
    requires
        c.holds(),
        n <= x.len(),
    ensures
        (c.slope)(sum_of_squares::<A>(x, n)) == 2real * total(
            n,
            |i: int| (c.num)(x[i]) * (c.slope)(x[i]),
        ),
    decreases n,
{
    c.lemma_exact();
    if n > 0 {
        lemma_squares_move(c, x, (n - 1) as nat);
        lemma_commutes((c.slope)(x[n - 1]), (c.num)(x[n - 1]));
        reveal(Calculus::holds);
    }
}

/// The factor of the normalization, and how it moves.
proof fn lemma_rms_factor<A: Arith>(c: Calculus<A>, x: Seq<A::T>, f: real, n: real, moved: real)
    requires
        c.holds(),
        0 < x.len() <= usize::MAX,
        f == (c.num)(rms_factor::<A>(x, s_lit::<A>(1, 5))),
        n == x.len() as real,
        moved == total(x.len(), |i: int| (c.num)(x[i]) * (c.slope)(x[i])),
    ensures
        (c.slope)(rms_factor::<A>(x, s_lit::<A>(1, 5))) * n == -((moved * f) * (f * f)),
{
    c.lemma_exact();
    let num = c.num;
    let slope = c.slope;
    let eps = s_lit::<A>(1, 5);
    let squares = sum_of_squares::<A>(x, x.len());
    let count = s_count::<A>(x.len() as usize);
    let mean = s_over::<A>(squares, count);
    let inside = s_plus::<A>(mean, eps);
    let root = s_sqrt::<A>(inside);
    let (r, p) = (num(root), slope(root));
    let s = slope(rms_factor::<A>(x, eps));
    lemma_squares_move(c, x, x.len());
    lemma_sum_of_squares::<A>(num, x, x.len());
    assert(num(eps) > 0real) by {
        reveal(exact);
        reveal_with_fuel(power_of_ten, 6);
        assert(power_of_ten(5) == 100000);
        let e = num(eps);
        assert(e * (power_of_ten(5) as real) == 1u64 as real);
        assert(e * 100000real == 1real);
    }
    assert(num(count) == n && num(mean) == num(squares) / n && num(inside) == num(mean) + num(eps))
        by {
        reveal(exact);
    }
    let (a, b) = (num(mean), num(squares));
    assert(a >= 0real) by (nonlinear_arith)
        requires
            a == b / n,
            b >= 0real,
            n > 0real,
    ;
    assert(r >= 0real && r * r == num(inside)) by {
        reveal(exact);
    }
    assert(r > 0real) by (nonlinear_arith)
        requires
            r >= 0real,
            r * r > 0real,
    ;
    assert(f == 1real / r) by {
        reveal(exact);
    }
    assert(f * r == 1real) by (nonlinear_arith)
        requires
            f == 1real / r,
            r > 0real,
    ;
    let t = slope(mean);
    assert(slope(inside) == t && 2real * (r * p) == t && s * (r * r) == -p && t * (n * n) == (2real
        * moved) * n) by {
        reveal(Calculus::holds);
        lemma_neutral(r);
        lemma_neutral(p);
        lemma_neutral(b);
    }
    assert(t * n == 2real * moved) by {
        lemma_regroups(t, n, n);
        let (y, z) = (t * n, 2real * moved);
        assert(y == z) by (nonlinear_arith)
            requires
                y * n == z * n,
                n > 0real,
        ;
    }
    // p * n == moved * f
    lemma_commutes(f, r);
    let rp = r * p;
    assert(rp * n == moved) by {
        lemma_regroups(2real, rp, n);
    }
    lemma_regroups(rp, n, f);
    lemma_regroups(r, p, f);
    lemma_neutral(p);
    assert(p * n == moved * f);
    // s == -p * (f * f)
    let rr = r * r;
    lemma_regroups(s, rr, f * f);
    lemma_regroups(r, r, f * f);
    lemma_regroups(r, f, f);
    lemma_neutral(f);
    lemma_neutral(s);
    assert(rr * (f * f) == 1real);
    assert(s == (-p) * (f * f));
    lemma_regroups(-p, f * f, n);
    assert((-p) * n == -(p * n)) by (nonlinear_arith);
    let (y, z) = (p * n, f * f);
    assert((-y) * z == -(y * z)) by (nonlinear_arith);
}

/// The gradient of the normalization is its derivative.
#[verifier::rlimit(30)]
pub proof fn norm_gradients_are_derivatives<A: Arith>(
    c: Calculus<A>,
    x: Seq<A::T>,
    d_y: Seq<A::T>,
)
    requires
        c.holds(),
        0 < x.len() <= usize::MAX,
        d_y.len() == x.len(),
    ensures
        c.along(d_y, rms_normed::<A>(x)) == c.along(rms_back::<A>(x, d_y), x),
{
    c.lemma_exact();
    let num = c.num;
    let slope = c.slope;
    let k = x.len();
    let n = k as real;
    let factor = rms_factor::<A>(x, s_lit::<A>(1, 5));
    let (f, s) = (num(factor), slope(factor));
    let y = rms_normed::<A>(x);
    let back = rms_back::<A>(x, d_y);
    let xs = |i: int| num(x[i]) * slope(x[i]);
    let moved = total(k, xs);
    lemma_rms_factor(c, x, f, n, moved);
    let ds = |i: int| num(d_y[i]) * slope(x[i]);
    let dx = |i: int| num(d_y[i]) * num(x[i]);
    let dy = |i: int| num(d_y[i]) * num(y[i]);
    let (big, d) = (total(k, ds), total(k, dx));
    lemma_num_dot::<A>(num, d_y, y);
    let mean = num(s_over::<A>(dot_of::<A>(d_y, y), s_count::<A>(k as usize)));
    // forward
    let h = |i: int| num(d_y[i]) * slope(y[i]);
    let fds = |i: int| f * ds(i);
    let sdx = |i: int| s * dx(i);
    assert forall|i: int| 0 <= i < k implies #[trigger] h(i) == fds(i) + sdx(i) && dy(i) == f * dx(i)
        by {
        let (v, a, b) = (num(d_y[i]), num(x[i]), slope(x[i]));
        assert(slope(y[i]) == b * f + a * s) by {
            reveal(Calculus::holds);
        }
        assert(num(y[i]) == a * f) by {
            reveal(exact);
        }
        lemma_distributes(v, b * f, a * s);
        lemma_regroups(v, b, f);
        lemma_commutes(v * b, f);
        lemma_regroups(v, a, s);
        lemma_commutes(v * a, s);
        lemma_regroups(v, a, f);
        lemma_commutes(v * a, f);
    }
    lemma_total_plus(k, fds, sdx, h);
    lemma_total_times(k, f, ds, fds);
    lemma_total_times(k, s, dx, sdx);
    assert forall|i: int| 0 <= i < k implies #[trigger] dy(i) == f * dx(i) by {
        assert(h(i) == fds(i) + sdx(i));
    }
    lemma_total_times(k, f, dx, dy);
    assert(mean == (f * d) / n) by {
        reveal(exact);
    }
    let fd = f * d;
    assert(mean * n == fd) by (nonlinear_arith)
        requires
            mean == fd / n,
            n > 0real,
    ;
    // backward
    let g = |i: int| num(back[i]) * slope(x[i]);
    let q = -((f * f) * mean);
    let qxs = |i: int| q * xs(i);
    assert forall|i: int| 0 <= i < k implies #[trigger] g(i) == fds(i) + qxs(i) by {
        let (v, a, b) = (num(d_y[i]), num(x[i]), slope(x[i]));
        assert(num(back[i]) == f * (v - (a * f) * mean)) by {
            reveal(exact);
        }
        let w = (a * f) * mean;
        lemma_distributes(f, v, w);
        lemma_commutes(f * v - f * w, b);
        lemma_distributes(b, f * v, f * w);
        lemma_commutes(b, f * v);
        lemma_commutes(b, f * w);
        lemma_regroups(f, v, b);
        // f * w * b == (f * f) * mean * (a * b)
        lemma_commutes(a, f);
        lemma_regroups(f, a, mean);
        lemma_regroups(f, f, a * mean);
        lemma_commutes(a, mean);
        lemma_regroups(f * f, mean, a);
        let ff_mean = (f * f) * mean;
        lemma_regroups(ff_mean, a, b);
        let ab = a * b;
        assert((-ff_mean) * ab == -(ff_mean * ab)) by (nonlinear_arith);
    }
    lemma_total_plus(k, fds, qxs, g);
    lemma_total_times(k, q, xs, qxs);
    // s * d == q * moved
    let (lhs, rhs) = (s * d, q * moved);
    let ff = f * f;
    assert(lhs * n == -((moved * f) * ff) * d) by {
        lemma_regroups(s, d, n);
    }
    assert(rhs * n == -((ff * moved) * fd)) by {
        let ff_mean = ff * mean;
        assert((-ff_mean) * moved == -(ff_mean * moved)) by (nonlinear_arith);
        lemma_regroups(ff, mean, moved);
        let w = ff * moved;
        lemma_regroups(w, mean, n);
        let z = w * mean;
        assert((-z) * n == -(z * n)) by (nonlinear_arith);
    }
    assert(((moved * f) * ff) * d == (ff * moved) * fd) by {
        lemma_commutes(moved * f, ff);
        lemma_regroups(ff, moved, f);
        lemma_regroups(ff * moved, f, d);
    }
    let z = (moved * f) * ff;
    assert((-z) * d == -(z * d)) by (nonlinear_arith);
    assert(lhs == rhs) by (nonlinear_arith)
        requires
            lhs * n == rhs * n,
            n > 0real,
    ;
}

/// The gradients of the gated activation are its derivatives.
pub proof fn gate_gradients_are_derivatives<A: Arith>(
    c: Calculus<A>,
    gate: Seq<A::T>,
    up: Seq<A::T>,
    d_out: Seq<A::T>,
)
    requires
        c.holds(),
        up.len() == gate.len(),
        d_out.len() == gate.len(),
    ensures
        c.along(d_out, gated_up::<A>(gate, up)) == c.along(
            d_gate_of::<A>(d_out, gate, up),
            gate,
        ) + c.along(d_up_of::<A>(d_out, gate), up),
{
    c.lemma_exact();
    let num = c.num;
    let slope = c.slope;
    let out = gated_up::<A>(gate, up);
    let (d_gate, d_up) = (d_gate_of::<A>(d_out, gate, up), d_up_of::<A>(d_out, gate));
    let f = |i: int| num(d_gate[i]) * slope(gate[i]);
    let k = |i: int| num(d_up[i]) * slope(up[i]);
    let h = |i: int| num(d_out[i]) * slope(out[i]);
    assert forall|i: int| 0 <= i < gate.len() implies #[trigger] h(i) == f(i) + k(i) by {
        let (g, gs, u, us, v) = (
            num(gate[i]),
            slope(gate[i]),
            num(up[i]),
            slope(up[i]),
            num(d_out[i]),
        );
        lemma_swish_moves(c, gate[i]);
        let sig = num(sig_of::<A>(gate[i]));
        let swish = g * sig;
        let t = sig + swish * (1real - sig);
        assert(slope(out[i]) == (t * gs) * u + swish * us) by {
            reveal(Calculus::holds);
        }
        assert(num(d_gate[i]) == (v * u) * t && num(d_up[i]) == v * swish) by {
            reveal(exact);
        }
        lemma_distributes(v, (t * gs) * u, swish * us);
        lemma_regroups(v, swish, us);
        lemma_commutes(t * gs, u);
        lemma_regroups(v, u, t * gs);
        lemma_regroups(v * u, t, gs);
    }
    lemma_total_plus(gate.len(), f, k, h);
}

/// How the swish moves with its input.
proof fn lemma_swish_moves<A: Arith>(c: Calculus<A>, x: A::T)
    requires
        c.holds(),
    ensures
        ({
            let sig = (c.num)(sig_of::<A>(x));
            let swish = (c.num)(x) * sig;
            &&& (c.num)(silu_of::<A>(x)) == swish
            &&& (c.slope)(silu_of::<A>(x)) == (sig + swish * (1real - sig)) * (c.slope)(x)
        }),
{
    c.lemma_exact();
    let num = c.num;
    let slope = c.slope;
    let below = s_exp::<A>(s_negate::<A>(x));
    let bottom = s_plus::<A>(one::<A>(), below);
    let (g, gs, e, b) = (num(x), slope(x), num(below), num(bottom));
    let sig = num(sig_of::<A>(x));
    assert(e > 0real && b == 1real + e && sig == 1real / b && num(silu_of::<A>(x)) == g / b) by {
        reveal(exact);
    }
    assert(sig * b == 1real) by (nonlinear_arith)
        requires
            sig == 1real / b,
            b > 0real,
    ;
    let q = g / b;
    assert(q == g * sig) by (nonlinear_arith)
        requires
            q == g / b,
            sig == 1real / b,
            b > 0real,
    ;
    let s = slope(silu_of::<A>(x));
    let es = e * gs;
    assert(s * (b * b) == gs * b + g * es) by {
        reveal(Calculus::holds);
        assert(e * (-gs) == -es) by (nonlinear_arith)
            requires
                es == e * gs,
        ;
        assert(slope(bottom) == -es);
        assert(g * (-es) == -(g * es)) by (nonlinear_arith);
    }
    // e * sig == 1 - sig
    lemma_distributes(sig, 1real, e);
    lemma_neutral(sig);
    lemma_commutes(sig, e);
    assert(e * sig == 1real - sig);
    // s == (gs * b + g * es) * (sig * sig)
    let ss = sig * sig;
    lemma_regroups(s, b * b, ss);
    lemma_regroups(b, b, ss);
    lemma_regroups(b, sig, sig);
    lemma_commutes(b, sig);
    lemma_neutral(sig);
    lemma_neutral(s);
    assert((b * b) * ss == 1real);
    lemma_commutes(gs * b + g * es, ss);
    lemma_distributes(ss, gs * b, g * es);
    // ss * (gs * b) == sig * gs
    lemma_commutes(gs, b);
    lemma_regroups(ss, b, gs);
    lemma_regroups(sig, sig, b);
    // ss * (g * es) == swish * (1 - sig) * gs
    let swish = g * sig;
    lemma_commutes(ss, g * es);
    lemma_regroups(g, es, ss);
    lemma_regroups(e, gs, ss);
    lemma_regroups(e, sig, sig);
    lemma_commutes(es, ss);
    lemma_regroups(e, ss, gs);
    let rest = 1real - sig;
    lemma_regroups(rest, sig, gs);
    lemma_commutes(rest, sig);
    lemma_regroups(sig, rest, gs);
    assert(es * ss == (sig * rest) * gs);
    lemma_regroups(g, sig, rest * gs);
    lemma_regroups(swish, rest, gs);
    lemma_regroups(sig, rest, gs);
    let t = swish * rest;
    lemma_commutes(sig + t, gs);
    lemma_distributes(gs, sig, t);
    lemma_commutes(gs, sig);
    lemma_commutes(gs, t);
}

impl<A: Arith> ForgeBlockValues<A> {
    /// The gradients along the weights of the block.
    pub open spec fn along(&self, c: Calculus<A>, g: ForgeGradValues<A::T>) -> real {
        c.along(g.w1, self.w1) + c.along(g.w1u, self.w1u) + c.along(g.w2, self.w2) + match self.mrm {
            Some(m) => memory_along(c, g, m),
            None => 0real,
        }
    }

    /// The gradients at the slots along what the memory of the block holds.
    pub open spec fn slots_along(&self, c: Calculus<A>, g: SlotValues<A::T>) -> real {
        match self.mrm {
            Some(m) => slots_along(c, g, m),
            None => 0real,
        }
    }

    /// The block has a width, its memory has slots, and takes as given what is not trained.
    pub open spec fn is_smooth(&self, c: Calculus<A>) -> bool {
        &&& self.wf()
        &&& 0 < self.d <= usize::MAX
        &&& self.mrm matches Some(m) ==> m.k_fine > 0 && m.k_coarse > 0 && is_given(c, m)
    }

    /// What the feed-forward part puts out moves with its input and its weights.
    #[verifier::rlimit(30)]
    #[verifier::spinoff_prover]
    proof fn lemma_ff(
        &self,
        c: Calculus<A>,
        mid: Seq<A::T>,
        d_h: Seq<A::T>,
        scale: A::T,
        g: ForgeGradValues<A::T>,
    )
        requires
            c.holds(),
            self.is_smooth(c),
            mid.len() == self.d,
            d_h.len() == self.d,
            g.fits(self.d, self.d_ff),
        ensures
            ({
                let h_norm = rms_normed::<A>(mid);
                let gate = matvec_of::<A>(self.w1, self.d_ff, h_norm);
                let up = matvec_of::<A>(self.w1u, self.d_ff, h_norm);
                let d_ff_out = matvec_transposed_of::<A>(self.w2, self.d_ff, d_h);
                let d_gate = d_gate_of::<A>(d_ff_out, gate, up);
                let d_up = d_up_of::<A>(d_ff_out, gate);
                let d_norm = rows_added::<A>(
                    matvec_transposed_of::<A>(self.w1, self.d, d_gate),
                    self.w1u,
                    d_up,
                    d_up.len(),
                );
                let through = summed::<A>(d_h, rms_back::<A>(mid, d_norm));
                let w1 = outer_added::<A>(g.w1, d_gate, h_norm, scale);
                let w1u = outer_added::<A>(g.w1u, d_up, h_norm, scale);
                let w2 = outer_added::<A>(g.w2, d_h, gated_up::<A>(gate, up), scale);
                &&& through.len() == self.d
                &&& w1.len() == g.w1.len() && w1u.len() == g.w1u.len() && w2.len() == g.w2.len()
                &&& (c.num)(scale) * c.along(d_h, self.with_ff(mid)) == c.along(w1, self.w1)
                    - c.along(g.w1, self.w1) + c.along(w1u, self.w1u) - c.along(g.w1u, self.w1u)
                    + c.along(w2, self.w2) - c.along(g.w2, self.w2) + (c.num)(scale) * c.along(
                    through,
                    mid,
                )
            }),
    {
        c.lemma_exact();
        let h_norm = rms_normed::<A>(mid);
        let gate = matvec_of::<A>(self.w1, self.d_ff, h_norm);
        let up = matvec_of::<A>(self.w1u, self.d_ff, h_norm);
        let gu = gated_up::<A>(gate, up);
        let d_ff_out = matvec_transposed_of::<A>(self.w2, self.d_ff, d_h);
        c.lemma_linear(self.w2, d_h, gu);
        c.lemma_transposed(self.w2, d_h, gu);
        c.lemma_through_add_scaled(d_h, mid, matvec_of::<A>(self.w2, self.d, gu), one::<A>());
        let low = matvec_of::<A>(self.w2, self.d, gu);
        lemma_neutral(c.along(d_h, low));
        lemma_neutral((c.num)(dot_of::<A>(d_h, low)));
        gate_gradients_are_derivatives(c, gate, up, d_ff_out);
        let d_gate = d_gate_of::<A>(d_ff_out, gate, up);
        let d_up = d_up_of::<A>(d_ff_out, gate);
        c.lemma_linear(self.w1, d_gate, h_norm);
        c.lemma_linear(self.w1u, d_up, h_norm);
        c.lemma_transposed(self.w1, d_gate, h_norm);
        let first = matvec_transposed_of::<A>(self.w1, self.d, d_gate);
        c.lemma_along_rows(first, self.w1u, d_up, h_norm);
        let d_norm = rows_added::<A>(first, self.w1u, d_up, d_up.len());
        norm_gradients_are_derivatives(c, mid, d_norm);
        c.lemma_along_summed(d_h, rms_back::<A>(mid, d_norm), mid);
        c.lemma_along_outer(g.w1, self.w1, d_gate, h_norm, scale);
        c.lemma_along_outer(g.w1u, self.w1u, d_up, h_norm, scale);
        c.lemma_along_outer(g.w2, self.w2, d_h, gu, scale);
        let (a, b, w) = (
            c.weights_move(self.w1, d_gate, h_norm),
            c.weights_move(self.w1u, d_up, h_norm),
            c.weights_move(self.w2, d_h, gu),
        );
        let through = summed::<A>(d_h, rms_back::<A>(mid, d_norm));
        let rest = c.along(through, mid);
        assert(c.along(d_h, self.with_ff(mid)) == a + b + w + rest);
        let s = (c.num)(scale);
        lemma_distributes(s, a + b + w, rest);
        lemma_distributes(s, a + b, w);
        lemma_distributes(s, a, b);
    }

    /// The surprise threshold does not take part in the gradients.
    proof fn lemma_gated_back(
        &self,
        m: MrmValues<A>,
        r: ReadValues<A::T>,
        h: Seq<A::T>,
        d_out: Seq<A::T>,
        scale: A::T,
        slots: SlotValues<A::T>,
        g: ForgeGradValues<A::T>,
    )
        ensures
            self.gated(m).back(r, h, d_out, scale, slots, g) == m.back(
                r,
                h,
                d_out,
                scale,
                slots,
                g,
            ),
    {
    }

    /// The gradients of a block are the derivatives of what it puts out and of what its memory then
    /// holds.
    #[verifier::rlimit(60)]
    #[verifier::spinoff_prover]
    pub proof fn block_gradients_are_derivatives(
        &self,
        c: Calculus<A>,
        h: Seq<A::T>,
        d_h: Seq<A::T>,
        scale: A::T,
        g: ForgeGradValues<A::T>,
        slots: SlotValues<A::T>,
    )
        requires
            c.holds(),
            self.is_smooth(c),
            h.len() == self.d,
            d_h.len() == self.d,
            g.fits(self.d, self.d_ff),
            self.holds_grads(slots),
        ensures
            ({
                let b = self.back(
                    h,
                    self.with_memory(h),
                    self.read_at(h),
                    d_h,
                    scale,
                    g,
                    slots,
                );
                &&& (c.num)(scale) * (c.along(d_h, self.out_of(h)) + self.next(h).slots_along(
                    c,
                    slots,
                )) == self.along(c, b.grads) - self.along(c, g) + (c.num)(scale) * (c.along(
                    b.d_h,
                    h,
                ) + self.slots_along(c, b.slots))
                &&& b.grads.fits(self.d, self.d_ff)
                &&& b.d_h.len() == self.d
                &&& self.holds_grads(b.slots)
                &&& self.out_of(h).len() == self.d
            }),
    {
        c.lemma_exact();
        let nh = rms_normed::<A>(h);
        let mid = self.with_memory(h);
        let b = self.back(h, mid, self.read_at(h), d_h, scale, g, slots);
        let s = (c.num)(scale);
        assert(mid.len() == self.d);
        self.lemma_ff(c, mid, d_h, scale, g);
        let h_norm = rms_normed::<A>(mid);
        let gate = matvec_of::<A>(self.w1, self.d_ff, h_norm);
        let up = matvec_of::<A>(self.w1u, self.d_ff, h_norm);
        let d_ff_out = matvec_transposed_of::<A>(self.w2, self.d_ff, d_h);
        let d_gate = d_gate_of::<A>(d_ff_out, gate, up);
        let d_up = d_up_of::<A>(d_ff_out, gate);
        let d_norm = rows_added::<A>(
            matvec_transposed_of::<A>(self.w1, self.d, d_gate),
            self.w1u,
            d_up,
            d_up.len(),
        );
        let through = summed::<A>(d_h, rms_back::<A>(mid, d_norm));
        match self.mrm {
            Some(m) => {
                let gm = self.gated(m);
                let out = gm.out_of(nh);
                memory_gradients_are_derivatives(c, gm, nh, through, scale, slots, g);
                self.lemma_gated_back(m, gm.read_at(nh), nh, through, scale, slots, g);
                let mb = m.back(gm.read_at(nh), nh, through, scale, slots, g);
                c.lemma_through_add_scaled(through, h, out, one::<A>());
                lemma_neutral(c.along(through, out));
                lemma_neutral((c.num)(dot_of::<A>(through, out)));
                norm_gradients_are_derivatives(c, h, mb.d_h);
                c.lemma_along_summed(through, rms_back::<A>(h, mb.d_h), h);
                let after = self.next(h).slots_along(c, slots);
                assert(after == slots_along(c, slots, gm.next(nh, false))) by {
                    let (x, y) = (
                        gm.next(nh, false),
                        gm.next(nh, self.cfg.use_surprise_gate),
                    );
                    assert(x.fine_keys == y.fine_keys && x.fine_vals == y.fine_vals);
                    assert(x.coarse_keys == y.coarse_keys && x.coarse_vals == y.coarse_vals);
                }
                lemma_distributes(s, c.along(d_h, self.out_of(h)), after);
                lemma_distributes(s, c.along(through, h), c.along(through, out));
                lemma_distributes(s, c.along(through, out), after);
                let inner = c.along(mb.d_h, nh);
                let held = slots_along(c, mb.slots, m);
                lemma_distributes(s, inner, held);
                lemma_distributes(s, c.along(through, h), inner);
                lemma_distributes(s, c.along(b.d_h, h), held);
            },
            None => {
                c.lemma_through_add_scaled(through, h, nh, one::<A>());
                lemma_neutral(c.along(through, nh));
                lemma_neutral((c.num)(dot_of::<A>(through, nh)));
                norm_gradients_are_derivatives(c, h, through);
                c.lemma_along_summed(through, rms_back::<A>(h, through), h);
            },
        }
    }
}

/// Two blocks have the same weights, and take the same as given.
pub open spec fn trained_alike<A: Arith>(a: ForgeBlockValues<A>, b: ForgeBlockValues<A>) -> bool {
    &&& same_block_weights::<A>(a, b)
    &&& a.mrm is Some ==> a.mrm->0.coarse_decay == b.mrm->0.coarse_decay && a.mrm->0.fw_active
        == b.mrm->0.fw_active && a.mrm->0.fw_u == b.mrm->0.fw_u && a.mrm->0.fw_v == b.mrm->0.fw_v
}

/// Blocks that are trained alike go back alike.
proof fn lemma_back_alike<A: Arith>(
    a: ForgeBlockValues<A>,
    b: ForgeBlockValues<A>,
    h: Seq<A::T>,
    mid: Seq<A::T>,
    read: ReadValues<A::T>,
    d_h: Seq<A::T>,
    scale: A::T,
    g: ForgeGradValues<A::T>,
    slots: SlotValues<A::T>,
)
    requires
        trained_alike(a, b),
    ensures
        a.back(h, mid, read, d_h, scale, g, slots) == b.back(h, mid, read, d_h, scale, g, slots),
{
    if let Some(m) = a.mrm {
        let n = b.mrm->0;
        let q = m.query_of(rms_normed::<A>(h));
        assert(m.with_slots(read).probs_of(q) == n.with_slots(read).probs_of(q));
        assert(m.with_slots(read).read_of(q) == n.with_slots(read).read_of(q));
    }
}

/// A block stays trained alike through a token.
proof fn lemma_next_block<A: Arith>(c: Calculus<A>, b: ForgeBlockValues<A>, h: Seq<A::T>)
    requires
        b.is_smooth(c),
        h.len() == b.d,
    ensures
        b.next(h).is_smooth(c),
        trained_alike(b.next(h), b),
{
    if let Some(m) = b.mrm {
        let nh = rms_normed::<A>(h);
        let gm = b.gated(m);
        let key = gm.key_of(nh);
        lemma_nearest_slot::<A>(gm.coarse_keys, gm.d, key, gm.k_coarse);
        let slot = nearest_of::<A>(gm.coarse_keys, gm.d, key, gm.k_coarse).0;
        lemma_row_bounds(gm.k_coarse, gm.d, slot);
        let kf = gm.k_fine;
        assert(0 <= gm.next_slot() < kf) by (nonlinear_arith)
            requires
                kf > 0,
                gm.next_slot() == gm.write_ptr as int % kf as int,
        ;
        lemma_row_bounds(gm.k_fine, gm.d, gm.next_slot());
    }
}

/// A trail through the first `n` blocks: what went in and out of each.
proof fn lemma_trail_steps<A: Arith>(
    c: Calculus<A>,
    blocks: Seq<ForgeBlockValues<A>>,
    h: Seq<A::T>,
    d: nat,
    n: nat,
)
    requires
        n <= blocks.len(),
        h.len() == d,
        forall|l: int|
            0 <= l < blocks.len() ==> (#[trigger] blocks[l]).is_smooth(c) && blocks[l].d == d,
    ensures
        ({
            let p = trail_of::<A>(blocks, h, n);
            &&& p.blocks.len() == blocks.len()
            &&& p.hs.len() == n + 1
            &&& p.mids.len() == n
            &&& p.reads.len() == n
            &&& p.hs[0] == h
            &&& forall|l: int| 0 <= l <= n ==> (#[trigger] p.hs[l]).len() == d
            &&& forall|l: int|
                0 <= l < n ==> #[trigger] p.blocks[l] == (ForgeBlockValues {
                    flops_forward: 0,
                    ..blocks[l].next(p.hs[l])
                }) && p.hs[l + 1] == blocks[l].out_of(p.hs[l]) && p.mids[l]
                    == blocks[l].with_memory(p.hs[l]) && p.reads[l] == blocks[l].read_at(p.hs[l])
            &&& forall|l: int| n <= l < blocks.len() ==> #[trigger] p.blocks[l] == blocks[l]
            &&& passed::<A>(blocks, h, n).blocks == p.blocks
            &&& passed::<A>(blocks, h, n).h == p.hs[n as int]
        }),
    decreases n,
{
    if n > 0 {
        lemma_trail_steps(c, blocks, h, d, (n - 1) as nat);
        let before = trail_of::<A>(blocks, h, (n - 1) as nat);
        let p = trail_of::<A>(blocks, h, n);
        let b = blocks[n - 1];
        assert(before.blocks[n - 1] == b);
        assert(b.is_smooth(c));
        let out = b.out_of(before.hs[n - 1]);
        assert(out.len() == d) by {
            assert(b.with_memory(before.hs[n - 1]).len() == d);
        }
        assert forall|l: int| 0 <= l < n implies #[trigger] p.blocks[l] == (ForgeBlockValues {
            flops_forward: 0,
            ..blocks[l].next(p.hs[l])
        }) && p.hs[l + 1] == blocks[l].out_of(p.hs[l]) && p.mids[l] == blocks[l].with_memory(
            p.hs[l],
        ) && p.reads[l] == blocks[l].read_at(p.hs[l]) by {
            if l < n - 1 {
                assert(p.blocks[l] == before.blocks[l]);
                assert(p.hs[l] == before.hs[l] && p.hs[l + 1] == before.hs[l + 1]);
            }
        }
        assert forall|l: int| 0 <= l <= n implies (#[trigger] p.hs[l]).len() == d by {
            if l < n {
                assert(p.hs[l] == before.hs[l]);
            }
        }
    }
}

/// Sums that differ in one term.
pub(crate) proof fn lemma_total_but_one(
    n: nat,
    f: spec_fn(int) -> real,
    g: spec_fn(int) -> real,
    k: int,
)
    requires
        0 <= k < n,
        forall|i: int| 0 <= i < n && i != k ==> #[trigger] f(i) == g(i),
    ensures
        total(n, f) - total(n, g) == f(k) - g(k),
    decreases n,
{
    if k < n - 1 {
        lemma_total_but_one((n - 1) as nat, f, g, k);
        assert(f(n - 1) == g(n - 1));
    } else {
        lemma_total_same((n - 1) as nat, f, g);
    }
}

/// The gradients of several blocks along their weights.
pub open spec fn blocks_along<A: Arith>(
    c: Calculus<A>,
    blocks: Seq<ForgeBlockValues<A>>,
    g: Seq<ForgeGradValues<A::T>>,
) -> real {
    total(blocks.len(), |l: int| blocks[l].along(c, g[l]))
}

/// The gradients at the slots of several blocks along what their memories hold.
pub open spec fn all_slots_along<A: Arith>(
    c: Calculus<A>,
    blocks: Seq<ForgeBlockValues<A>>,
    g: Seq<SlotValues<A::T>>,
) -> real {
    total(blocks.len(), |l: int| blocks[l].slots_along(c, g[l]))
}

/// Going back through the blocks from `l` on, for a token that went through `blocks`; `mixed` holds
/// the blocks after the token before `l`, and those before it from there on.
#[verifier::rlimit(60)]
#[verifier::spinoff_prover]
proof fn lemma_chain<A: Arith>(
    c: Calculus<A>,
    blocks: Seq<ForgeBlockValues<A>>,
    end: Seq<ForgeBlockValues<A>>,
    h: Seq<A::T>,
    d: nat,
    d_top: Seq<A::T>,
    scale: A::T,
    g: Seq<ForgeGradValues<A::T>>,
    slots: Seq<SlotValues<A::T>>,
    l: int,
)
    requires
        c.holds(),
        h.len() == d,
        d_top.len() == d,
        end.len() == blocks.len(),
        g.len() == blocks.len(),
        slots.len() == blocks.len(),
        0 <= l <= blocks.len(),
        forall|j: int|
            0 <= j < blocks.len() ==> (#[trigger] blocks[j]).is_smooth(c) && blocks[j].d == d
                && trained_alike(end[j], blocks[j]) && g[j].fits(d, blocks[j].d_ff)
                && blocks[j].holds_grads(slots[j]),
    ensures
        ({
            let n = blocks.len();
            let p = trail_of::<A>(blocks, h, n);
            let b = chain_back::<A>(end, p, d_top, scale, g, slots, l);
            let mixed = p.blocks.take(l) + blocks.skip(l);
            &&& b.grads.len() == n && b.slots.len() == n && b.d_h.len() == d
            &&& forall|j: int|
                0 <= j < n ==> (#[trigger] b.grads[j]).fits(d, blocks[j].d_ff)
                    && blocks[j].holds_grads(b.slots[j]) && (j < l ==> b.grads[j] == g[j]
                    && b.slots[j] == slots[j])
            &&& (c.num)(scale) * (c.along(d_top, p.hs.last()) + all_slots_along(c, p.blocks, slots))
                == blocks_along(c, blocks, b.grads) - blocks_along(c, blocks, g) + (c.num)(scale)
                * (c.along(b.d_h, p.hs[l]) + all_slots_along(c, mixed, b.slots))
        }),
    decreases blocks.len() - l,
{
    let n = blocks.len();
    let p = trail_of::<A>(blocks, h, n);
    lemma_trail_steps(c, blocks, h, d, n);
    let b = chain_back::<A>(end, p, d_top, scale, g, slots, l);
    let mixed = p.blocks.take(l) + blocks.skip(l);
    assert(mixed.len() == n);
    let s = (c.num)(scale);
    if l == n {
        assert(mixed =~= p.blocks);
        assert forall|j: int| 0 <= j < n implies (#[trigger] b.grads[j]).fits(d, blocks[j].d_ff)
            && blocks[j].holds_grads(b.slots[j]) by {
            assert(blocks[j].is_smooth(c));
        }
    } else {
        lemma_chain(c, blocks, end, h, d, d_top, scale, g, slots, l + 1);
        let later = chain_back::<A>(end, p, d_top, scale, g, slots, l + 1);
        let later_mixed = p.blocks.take(l + 1) + blocks.skip(l + 1);
        let blk = blocks[l];
        assert(blk.is_smooth(c) && trained_alike(end[l], blk));
        assert(p.blocks[l] == (ForgeBlockValues { flops_forward: 0, ..blk.next(p.hs[l]) }));
        assert(p.hs[l].len() == d);
        assert(later.grads[l] == g[l] && later.slots[l] == slots[l]);
        assert(g[l].fits(d, blk.d_ff) && blk.holds_grads(slots[l]));
        blk.block_gradients_are_derivatives(c, p.hs[l], later.d_h, scale, g[l], slots[l]);
        lemma_back_alike(
            end[l],
            blk,
            p.hs[l],
            p.mids[l],
            p.reads[l],
            later.d_h,
            scale,
            g[l],
            slots[l],
        );
        let bb = blk.back(p.hs[l], p.mids[l], p.reads[l], later.d_h, scale, g[l], slots[l]);
        assert(b.grads == later.grads.update(l, bb.grads) && b.slots == later.slots.update(
            l,
            bb.slots,
        ) && b.d_h == bb.d_h);
        let f = |j: int| blocks[j].along(c, b.grads[j]);
        let f2 = |j: int| blocks[j].along(c, later.grads[j]);
        lemma_total_but_one(n, f, f2, l);
        let k = |j: int| mixed[j].slots_along(c, b.slots[j]);
        let k2 = |j: int| later_mixed[j].slots_along(c, later.slots[j]);
        assert forall|j: int| 0 <= j < n && j != l implies #[trigger] k(j) == k2(j) by {
            assert(mixed[j] == later_mixed[j]);
        }
        lemma_total_but_one(n, k, k2, l);
        assert(mixed[l] == blk && later_mixed[l] == p.blocks[l]);
        let after = blk.next(p.hs[l]).slots_along(c, slots[l]);
        assert(p.blocks[l].slots_along(c, slots[l]) == after);
        assert(p.hs[l + 1] == blk.out_of(p.hs[l]));
        let (x, y) = (c.along(later.d_h, p.hs[l + 1]), c.along(b.d_h, p.hs[l]));
        let (u, v) = (total(n, k2), total(n, k));
        assert(v == u - after + blk.slots_along(c, bb.slots));
        lemma_distributes(s, x, u);
        lemma_distributes(s, x, after);
        lemma_distributes(s, y, v);
        lemma_distributes(s, y, blk.slots_along(c, bb.slots));
        lemma_distributes(s, u - after, blk.slots_along(c, bb.slots));
        lemma_distributes(s, u, after);
        assert forall|j: int| 0 <= j < n implies (#[trigger] b.grads[j]).fits(d, blocks[j].d_ff)
            && blocks[j].holds_grads(b.slots[j]) && (j < l ==> b.grads[j] == g[j] && b.slots[j]
            == slots[j]) by {
            if j != l {
                assert(b.grads[j] == later.grads[j] && b.slots[j] == later.slots[j]);
            }
        }
    }
}

/// Along a sum of two vectors.
pub(crate) proof fn lemma_through_summed<A: Arith>(
    c: Calculus<A>,
    u: Seq<A::T>,
    a: Seq<A::T>,
    b: Seq<A::T>,
)
    requires
        c.holds(),
        a.len() == b.len(),
    ensures
        c.along(u, summed::<A>(a, b)) == c.along(u, a) + c.along(u, b),
{
    let sum = summed::<A>(a, b);
    let f = |i: int| (c.num)(u[i]) * (c.slope)(a[i]);
    let g = |i: int| (c.num)(u[i]) * (c.slope)(b[i]);
    let h = |i: int| (c.num)(u[i]) * (c.slope)(sum[i]);
    assert forall|i: int| 0 <= i < a.len() implies #[trigger] h(i) == f(i) + g(i) by {
        assert((c.slope)(sum[i]) == (c.slope)(a[i]) + (c.slope)(b[i])) by {
            reveal(Calculus::holds);
        }
        lemma_distributes((c.num)(u[i]), (c.slope)(a[i]), (c.slope)(b[i]));
    }
    lemma_total_plus(a.len(), f, g, h);
}

impl<A: Arith> ForgeModelValues<A> {
    /// The gradients along the weights of the model.
    pub open spec fn along(&self, c: Calculus<A>, g: ForgeGradSet<A::T>) -> real {
        c.along(g.embed, self.embeddings) + c.along(g.pos_embed, self.pos_embed) + c.along(
            g.head,
            self.head,
        ) + blocks_along(c, self.blocks, g.blocks)
    }

    /// The weights are as large as they should be, and the blocks take as given what is not
    /// trained.
    pub open spec fn is_smooth(&self, c: Calculus<A>) -> bool {
        &&& self.embeddings.len() == self.vocab * self.d
        &&& self.pos_embed.len() == self.max_seq * self.d
        &&& self.head.len() == self.vocab * self.d
        &&& self.max_seq > 0
        &&& 0 < self.d
        &&& forall|l: int|
            0 <= l < self.blocks.len() ==> (#[trigger] self.blocks[l]).is_smooth(c)
                && self.blocks[l].d == self.d
    }

    /// The gradients are those of the weights of the model.
    pub open spec fn fits_grads(&self, g: ForgeGradSet<A::T>) -> bool {
        &&& g.embed.len() == self.embeddings.len()
        &&& g.pos_embed.len() == self.pos_embed.len()
        &&& g.head.len() == self.head.len()
        &&& g.blocks.len() == self.blocks.len()
        &&& forall|l: int|
            0 <= l < self.blocks.len() ==> (#[trigger] g.blocks[l]).fits(
                self.d,
                self.blocks[l].d_ff,
            )
    }

    /// The targets of a sequence have probabilities that count.
    pub open spec fn targets_count(&self, c: Calculus<A>, tokens: Seq<usize>) -> bool {
        forall|t: int|
            0 <= t < tokens.len() - 1 ==> counts(
                c,
                softmax_of::<A>(#[trigger] self.logits_at(tokens, t))[tokens[t + 1] as int],
            )
    }

    /// What a token is embedded as.
    proof fn lemma_embeds(&self, c: Calculus<A>, tok: int, t: int)
        requires
            self.is_smooth(c),
            0 <= tok < self.vocab,
            0 <= t,
        ensures
            self.embed(tok, t).len() == self.d,
    {
        lemma_row_bounds(self.vocab, self.d, tok);
    }

    /// After some tokens the weights are what they were, and the memories are those that the
    /// forward pass leaves behind.
    proof fn lemma_walks_smoothly(&self, c: Calculus<A>, tokens: Seq<usize>, n: nat)
        requires
            self.is_smooth(c),
            n <= tokens.len(),
            forall|t: int| 0 <= t < tokens.len() ==> #[trigger] tokens[t] < self.vocab,
        ensures
            ({
                let m = self.walked(tokens, n);
                &&& m.is_smooth(c)
                &&& m.blocks.len() == self.blocks.len()
                &&& m.vocab == self.vocab && m.d == self.d && m.max_seq == self.max_seq
                &&& m.embeddings == self.embeddings && m.pos_embed == self.pos_embed && m.head
                    == self.head
                &&& forall|l: int|
                    0 <= l < self.blocks.len() ==> trained_alike(
                        #[trigger] m.blocks[l],
                        self.blocks[l],
                    )
                &&& m.blocks == self.after(tokens, n).blocks
                &&& self.after(tokens, n).embeddings == self.embeddings && self.after(
                    tokens,
                    n,
                ).pos_embed == self.pos_embed && self.after(tokens, n).d == self.d && self.after(
                    tokens,
                    n,
                ).max_seq == self.max_seq
            }),
        decreases n,
    {
        if n > 0 {
            self.lemma_walks_smoothly(c, tokens, (n - 1) as nat);
            let before = self.walked(tokens, (n - 1) as nat);
            let m = self.walked(tokens, n);
            let tok = tokens[n - 1] as int;
            assert(tokens[n - 1] < self.vocab);
            before.lemma_embeds(c, tok, n - 1);
            let h = before.embed(tok, n - 1);
            let k = self.blocks.len();
            lemma_trail_steps(c, before.blocks, h, self.d, k);
            let p = before.trail(tok, n - 1);
            assert forall|l: int| 0 <= l < k implies (#[trigger] m.blocks[l]).is_smooth(c)
                && m.blocks[l].d == self.d && trained_alike(m.blocks[l], self.blocks[l]) by {
                assert(before.blocks[l].is_smooth(c));
                assert(p.hs[l].len() == self.d);
                lemma_next_block(c, before.blocks[l], p.hs[l]);
                assert(p.blocks[l] == (ForgeBlockValues {
                    flops_forward: 0,
                    ..before.blocks[l].next(p.hs[l])
                }));
                assert(trained_alike(before.blocks[l], self.blocks[l]));
            }
            assert(self.after(tokens, (n - 1) as nat).embed(tok, n - 1) == h);
        }
    }

    /// The gradients from token `t` on are the derivatives of the losses from there.
    #[verifier::rlimit(80)]
    #[verifier::spinoff_prover]
    proof fn lemma_sequence_derivatives(
        &self,
        c: Calculus<A>,
        tokens: Seq<usize>,
        scale: A::T,
        start: SequenceBack<A::T>,
        t: int,
    )
        requires
            c.holds(),
            self.is_smooth(c),
            tokens.len() >= 1,
            forall|q: int| 0 <= q < tokens.len() ==> #[trigger] tokens[q] < self.vocab,
            self.targets_count(c, tokens),
            self.fits_grads(start.grads),
            0 <= t <= tokens.len() - 1,
        ensures
            ({
                let n = (tokens.len() - 1) as nat;
                let b = self.sequence_back(tokens, scale, start, t);
                let at = self.walked(tokens, t as nat);
                &&& (c.num)(scale) * ((c.slope)(self.loss(tokens, n)) - (c.slope)(
                    self.loss(tokens, t as nat),
                )) == self.along(c, b.grads) - self.along(c, start.grads) + (c.num)(scale)
                    * all_slots_along(c, at.blocks, b.slots)
                &&& self.fits_grads(b.grads)
                &&& b.slots.len() == self.blocks.len()
                &&& forall|l: int|
                    0 <= l < self.blocks.len() ==> self.blocks[l].holds_grads(
                        #[trigger] b.slots[l],
                    )
            }),
        decreases tokens.len() - 1 - t,
    {
        c.lemma_exact();
        let n = (tokens.len() - 1) as nat;
        let b = self.sequence_back(tokens, scale, start, t);
        let at = self.walked(tokens, t as nat);
        let k = self.blocks.len();
        let s = (c.num)(scale);
        self.lemma_walks_smoothly(c, tokens, t as nat);
        if t == n {
            let f = |l: int| at.blocks[l].slots_along(c, b.slots[l]);
            assert forall|l: int| 0 <= l < k implies #[trigger] f(l) == 0real by {
                assert(at.blocks[l].is_smooth(c) && trained_alike(at.blocks[l], self.blocks[l]));
                if let Some(m) = at.blocks[l].mrm {
                    c.lemma_along_nothing(m.fine_keys);
                    c.lemma_along_nothing(m.fine_vals);
                    c.lemma_along_nothing(m.coarse_keys);
                    c.lemma_along_nothing(m.coarse_vals);
                }
            }
            lemma_total_zero(k, f);
            lemma_neutral(s);
        } else {
            self.lemma_sequence_derivatives(c, tokens, scale, start, t + 1);
            self.lemma_walks_smoothly(c, tokens, n);
            self.lemma_walks_smoothly(c, tokens, (t + 1) as nat);
            let later = self.sequence_back(tokens, scale, start, t + 1);
            let end = self.walked(tokens, n);
            let (tok, target) = (tokens[t] as int, tokens[t + 1] as int);
            assert(tokens[t] < self.vocab && tokens[t + 1] < self.vocab);
            at.lemma_embeds(c, tok, t);
            let h = at.embed(tok, t);
            lemma_trail_steps(c, at.blocks, h, self.d, k);
            let trail = self.trail_at(tokens, t);
            assert(trail == trail_of::<A>(at.blocks, h, k));
            let top = trail.hs.last();
            assert(top == trail.hs[k as int] && top.len() == self.d);
            let logits = self.logits_at(tokens, t);
            // the loss of the token
            assert(counts(c, softmax_of::<A>(logits)[target]));
            cross_entropy_gradients_are_derivatives::<A>(c, logits, target);
            let lgrad = cross_entropy_grad_of::<A>(logits, target);
            let loss = cross_entropy_of::<A>(logits, target);
            c.lemma_linear(self.head, lgrad, top);
            c.lemma_transposed(self.head, lgrad, top);
            c.lemma_along_outer(later.grads.head, self.head, lgrad, top, scale);
            let d_top = matvec_transposed_of::<A>(self.head, self.d, lgrad);
            assert(self.token_loss(tokens, t) == loss);
            assert(self.loss(tokens, (t + 1) as nat) == s_plus::<A>(
                self.loss(tokens, t as nat),
                loss,
            ));
            assert((c.slope)(self.loss(tokens, (t + 1) as nat)) == (c.slope)(
                self.loss(tokens, t as nat),
            ) + (c.slope)(loss)) by {
                reveal(Calculus::holds);
            }
            // the blocks
            assert forall|j: int| 0 <= j < k implies (#[trigger] at.blocks[j]).is_smooth(c)
                && at.blocks[j].d == self.d && trained_alike(end.blocks[j], at.blocks[j])
                && later.grads.blocks[j].fits(self.d, at.blocks[j].d_ff)
                && at.blocks[j].holds_grads(later.slots[j]) by {
                assert(trained_alike(at.blocks[j], self.blocks[j]));
                assert(trained_alike(end.blocks[j], self.blocks[j]));
                assert(later.grads.blocks[j].fits(self.d, self.blocks[j].d_ff));
                assert(self.blocks[j].holds_grads(later.slots[j]));
            }
            lemma_chain(
                c,
                at.blocks,
                end.blocks,
                h,
                self.d,
                d_top,
                scale,
                later.grads.blocks,
                later.slots,
                0,
            );
            let chain = chain_back::<A>(
                end.blocks,
                trail,
                d_top,
                scale,
                later.grads.blocks,
                later.slots,
                0,
            );
            assert(trail.blocks.take(0) + at.blocks.skip(0) =~= at.blocks);
            assert(self.walked(tokens, (t + 1) as nat).blocks == trail.blocks);
            self.lemma_same_along(c, at.blocks, chain.grads);
            self.lemma_same_along(c, at.blocks, later.grads.blocks);
            // the embeddings
            let pos = if t < self.max_seq - 1 {
                t
            } else {
                self.max_seq - 1
            };
            let (row, place) = (
                row_of(self.embeddings, self.d, tok),
                row_of(self.pos_embed, self.d, pos),
            );
            lemma_row_bounds(self.vocab, self.d, tok);
            lemma_row_bounds(self.max_seq, self.d, pos);
            lemma_through_summed(c, chain.d_h, row, place);
            lemma_along_raised(
                c,
                later.grads.embed,
                self.embeddings,
                self.vocab,
                self.d,
                tok,
                chain.d_h,
                scale,
            );
            lemma_along_raised(
                c,
                later.grads.pos_embed,
                self.pos_embed,
                self.max_seq,
                self.d,
                pos,
                chain.d_h,
                scale,
            );
            assert(b == self.token_back(tokens, scale, t, later));
            assert(trail.hs[0] == h && h == summed::<A>(row, place));
            let moved = c.weights_move(self.head, lgrad, top);
            let (u, v) = (
                all_slots_along(c, trail.blocks, later.slots),
                all_slots_along(c, at.blocks, chain.slots),
            );
            let (x, y) = (c.along(chain.d_h, row), c.along(chain.d_h, place));
            let (l0, l1, l2) = (
                (c.slope)(self.loss(tokens, t as nat)),
                (c.slope)(loss),
                (c.slope)(self.loss(tokens, n)),
            );
            lemma_distributes(s, l2, l0);
            lemma_distributes(s, l2, l0 + l1);
            lemma_distributes(s, l0, l1);
            lemma_distributes(s, moved, c.along(d_top, top));
            lemma_distributes(s, c.along(d_top, top), u);
            lemma_distributes(s, x + y, v);
            lemma_distributes(s, x, y);
            assert forall|l: int| 0 <= l < k implies self.blocks[l].holds_grads(
                #[trigger] b.slots[l],
            ) && b.grads.blocks[l].fits(self.d, self.blocks[l].d_ff) by {
                assert(trained_alike(at.blocks[l], self.blocks[l]));
                assert(chain.grads[l].fits(self.d, at.blocks[l].d_ff));
            }
        }
    }

    /// Blocks with the same weights have the same gradients along them.
    proof fn lemma_same_along(
        &self,
        c: Calculus<A>,
        blocks: Seq<ForgeBlockValues<A>>,
        g: Seq<ForgeGradValues<A::T>>,
    )
        requires
            blocks.len() == self.blocks.len(),
            forall|l: int|
                0 <= l < self.blocks.len() ==> trained_alike(
                    #[trigger] blocks[l],
                    self.blocks[l],
                ),
        ensures
            blocks_along(c, blocks, g) == blocks_along(c, self.blocks, g),
    {
        let f = |l: int| blocks[l].along(c, g[l]);
        let h = |l: int| self.blocks[l].along(c, g[l]);
        assert forall|l: int| 0 <= l < blocks.len() implies #[trigger] f(l) == h(l) by {
            assert(trained_alike(blocks[l], self.blocks[l]));
        }
        lemma_total_same(blocks.len(), f, h);
    }

    /// Nothing that the memories hold at the start moves.
    pub open spec fn starts_still(&self, c: Calculus<A>) -> bool {
        forall|l: int|
            0 <= l < self.blocks.len() ==> ((#[trigger] self.blocks[l]).mrm matches Some(m) ==> {
                &&& forall|i: int|
                    0 <= i < m.fine_keys.len() ==> (c.slope)(#[trigger] m.fine_keys[i]) == 0real
                &&& forall|i: int|
                    0 <= i < m.fine_vals.len() ==> (c.slope)(#[trigger] m.fine_vals[i]) == 0real
                &&& forall|i: int|
                    0 <= i < m.coarse_keys.len() ==> (c.slope)(#[trigger] m.coarse_keys[i]) == 0real
                &&& forall|i: int|
                    0 <= i < m.coarse_vals.len() ==> (c.slope)(#[trigger] m.coarse_vals[i]) == 0real
            })
    }
}

/// The gradients of FORGE are the derivatives of its loss, through everything that its memories
/// hold: along any direction in which its weights move, the slope of the loss of a sequence, times
/// the scale of the gradients, is the sum of the gradients that the sequence adds, each times the
/// slope of its weight. The memories start from what does not move; which slots are written, and
/// which of them count, is decided on the way and not differentiated. Targets whose probability is
/// cut off at 1e-12 are left out.
pub proof fn forge_gradients_are_derivatives<A: Arith>(
    c: Calculus<A>,
    model: ForgeModelValues<A>,
    tokens: Seq<usize>,
    scale: A::T,
    start: SequenceBack<A::T>,
)
    requires
        c.holds(),
        model.is_smooth(c),
        model.starts_still(c),
        tokens.len() >= 1,
        forall|q: int| 0 <= q < tokens.len() ==> #[trigger] tokens[q] < model.vocab,
        model.targets_count(c, tokens),
        model.fits_grads(start.grads),
    ensures
        (c.num)(scale) * (c.slope)(model.loss(tokens, (tokens.len() - 1) as nat)) == model.along(
            c,
            model.sequence_back(tokens, scale, start, 0).grads,
        ) - model.along(c, start.grads),
{
    c.lemma_exact();
    model.lemma_sequence_derivatives(c, tokens, scale, start, 0);
    let b = model.sequence_back(tokens, scale, start, 0);
    let f = |l: int| model.blocks[l].slots_along(c, b.slots[l]);
    assert forall|l: int| 0 <= l < model.blocks.len() implies #[trigger] f(l) == 0real by {
        if let Some(m) = model.blocks[l].mrm {
            lemma_still_inputs(c, b.slots[l].fine_keys, m.fine_keys);
            lemma_still_inputs(c, b.slots[l].fine_vals, m.fine_vals);
            lemma_still_inputs(c, b.slots[l].coarse_keys, m.coarse_keys);
            lemma_still_inputs(c, b.slots[l].coarse_vals, m.coarse_vals);
        }
    }
    lemma_total_zero(model.blocks.len(), f);
    lemma_neutral((c.num)(scale));
}

} // verus!
