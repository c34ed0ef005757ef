//! What holds across the modules.

use vstd::prelude::*;
use crate::arith::{
    Arith, one, s_exceeds, s_minus, s_over, s_plus, s_sqrt, s_times, sums_are_exact, zero,
};
use crate::buffer::{attention_scores, mixed_with_copy, scattered};
use crate::exp_e4::{FastWeights, no_fast_weights};
use crate::forge_eval::pending_sum;
use crate::forge_model::ForgeModelValues;
use crate::hebbian::{frobenius_of, sum_of_squares};
use crate::layer::{LossWeights, SequenceCache};
use crate::mrm::MrmValues;
use crate::softmax::{
    division_is_exact, exponentials, lemma_sum_of_scaled, max_of, softmax_of,
    softmax_sums_to_one, sum_of,
};
use crate::stacked_model::AxiomModel;
use crate::tensor::{lemma_row_bounds, row_of, scaled};
use crate::transformer::{TransformerBlock, weighted_sum};
use crate::transformer_model::TransformerModel;

verus! {

/// A matrix gives back what was set: the element that was set has its new value, and all others
/// have theirs.
pub proof fn get_reads_what_set_wrote<T>(
    data: Seq<T>,
    rows: nat,
    cols: nat,
    r: int,
    c: int,
    value: T,
)
    requires
        data.len() == rows * cols,
        0 <= r < rows,
        0 <= c < cols,
    ensures
        row_of(data.update(r * cols + c, value), cols, r)[c] == value,
        forall|q: int, p: int|
            #![trigger row_of(data, cols, q)[p]]
            0 <= q < rows && 0 <= p < cols && (q != r || p != c) ==> row_of(
                data.update(r * cols + c, value),
                cols,
                q,
            )[p] == row_of(data, cols, q)[p],
{
    lemma_row_bounds(rows, cols, r);
    assert forall|q: int, p: int|
        #![trigger row_of(data, cols, q)[p]]
        0 <= q < rows && 0 <= p < cols && (q != r || p != c) implies row_of(
        data.update(r * cols + c, value),
        cols,
        q,
    )[p] == row_of(data, cols, q)[p] by {
        lemma_row_bounds(rows, cols, q);
        if q < r {
            lemma_rows_apart(cols, q, r);
        } else if q > r {
            lemma_rows_apart(cols, r, q);
        }
    }
}

/// A row ends before a later one begins.
proof fn lemma_rows_apart(cols: nat, q: int, r: int)
    requires
        q < r,
    ensures
        q * cols + cols <= r * cols,
{
    assert(q * cols + cols <= r * cols) by (nonlinear_arith)
        requires
            q + 1 <= r,
            0 <= cols,
    ;
}

/// Two sequences agree on their first `n` elements.
pub open spec fn agree<T>(a: Seq<T>, b: Seq<T>, n: nat) -> bool {
    &&& n <= a.len()
    &&& n <= b.len()
    &&& forall|t: int| 0 <= t < n ==> #[trigger] a[t] == b[t]
}

/// What a position attends to comes from the first `n` rows and weights.
proof fn lemma_weighted_sum_prefix<A: Arith>(
    d: nat,
    a: Seq<Seq<A::T>>,
    b: Seq<Seq<A::T>>,
    weights: Seq<A::T>,
    n: nat,
)
    requires
        agree(a, b, n),
    ensures
        weighted_sum::<A>(d, a, weights, n) == weighted_sum::<A>(d, b, weights, n),
    decreases n,
{
    if n > 0 {
        lemma_weighted_sum_prefix::<A>(d, a, b, weights, (n - 1) as nat);
        assert(a[n - 1] == b[n - 1]);
    }
}

/// The output of a block at a position depends on the inputs up to it alone.
proof fn lemma_block_is_causal<A: Arith>(
    block: TransformerBlock<A>,
    a: Seq<Seq<A::T>>,
    b: Seq<Seq<A::T>>,
    i: int,
)
    requires
        0 <= i,
        agree(a, b, (i + 1) as nat),
    ensures
        block.out_of(a, i) == block.out_of(b, i),
{
    let n = (i + 1) as nat;
    assert(a[i] == b[i]);
    assert forall|t: int| 0 <= t < n implies #[trigger] block.keys(a)[t] == block.keys(b)[t] by {
        assert(a[t] == b[t]);
    }
    assert forall|t: int| 0 <= t < n implies #[trigger] block.values_of(a)[t] == block.values_of(
        b,
    )[t] by {
        assert(a[t] == b[t]);
    }
    let scale = crate::transformer::attention_scale::<A>(block.d_model);
    assert(crate::transformer::attention_scores::<A>(block.query(a[i]), block.keys(a), scale, n)
        =~= crate::transformer::attention_scores::<A>(
        block.query(b[i]),
        block.keys(b),
        scale,
        n,
    ));
    lemma_weighted_sum_prefix::<A>(
        block.d_model as nat,
        block.values_of(a),
        block.values_of(b),
        block.attention(a, i),
        n,
    );
}

/// The Transformer is causal: what comes out at a position, behind any number of blocks, depends
/// on the tokens up to that position alone.
pub proof fn transformer_is_causal<A: Arith>(
    model: TransformerModel<A>,
    x: Seq<usize>,
    y: Seq<usize>,
    l: nat,
    n: nat,
)
    requires
        agree(x, y, n),
    ensures
        agree(model.hidden(x, l), model.hidden(y, l), n),
    decreases l,
{
    if l > 0 {
        transformer_is_causal(model, x, y, (l - 1) as nat, n);
        let (a, b) = (model.hidden(x, (l - 1) as nat), model.hidden(y, (l - 1) as nat));
        lemma_hidden_len(model, x, (l - 1) as nat);
        lemma_hidden_len(model, y, (l - 1) as nat);
        assert forall|t: int| 0 <= t < n implies #[trigger] model.hidden(x, l)[t] == model.hidden(
            y,
            l,
        )[t] by {
            lemma_block_is_causal(model.blocks@[l - 1], a, b, t);
        }
    } else {
        assert forall|t: int| 0 <= t < n implies #[trigger] model.hidden(x, l)[t] == model.hidden(
            y,
            l,
        )[t] by {
            assert(x[t] == y[t]);
        }
    }
}

/// There is a hidden vector for each token.
proof fn lemma_hidden_len<A: Arith>(model: TransformerModel<A>, x: Seq<usize>, l: nat)
    ensures
        model.hidden(x, l).len() == x.len(),
    decreases l,
{
    if l > 0 {
        lemma_hidden_len(model, x, (l - 1) as nat);
    }
}

/// The stacked model is causal: what a layer gets, and the topmost puts out, for a token depends
/// on the tokens up to it alone.
pub proof fn stacked_model_is_causal<A: Arith>(
    model: AxiomModel<A>,
    x: Seq<usize>,
    y: Seq<usize>,
    l: nat,
    n: nat,
)
    requires
        agree(x, y, n),
    ensures
        agree(model.inputs_of_layer(x, l), model.inputs_of_layer(y, l), n),
    decreases l,
{
    if l == 0 {
        assert forall|t: int| 0 <= t < n implies #[trigger] model.inputs_of_layer(x, l)[t]
            == model.inputs_of_layer(y, l)[t] by {
            assert(x[t] == y[t]);
        }
    } else {
        stacked_model_is_causal(model, x, y, (l - 1) as nat, n);
        let (a, b) = (
            model.inputs_of_layer(x, (l - 1) as nat),
            model.inputs_of_layer(y, (l - 1) as nat),
        );
        assert forall|t: int| 0 <= t < n implies #[trigger] model.inputs_of_layer(x, l)[t]
            == model.inputs_of_layer(y, l)[t] by {
            model.layers@[l - 1].lemma_carried_prefix(
                a,
                b,
                model.blank(),
                model.config.hebbian_decay,
                model.config.hebbian_lr,
                t as nat,
            );
            assert(a[t] == b[t]);
        }
    }
}

/// No gradient crosses layers: what training takes back through layer `l` depends on that layer
/// and on its own activations alone, whatever the other layers, their activations and the
/// embeddings are.
pub proof fn no_gradient_crosses_layers<A: Arith>(
    model: AxiomModel<A>,
    other: AxiomModel<A>,
    x: Seq<usize>,
    other_x: Seq<usize>,
    caches: Seq<SequenceCache<A>>,
    other_caches: Seq<SequenceCache<A>>,
    lambda: LossWeights<A::T>,
    l: int,
)
    requires
        model.config == other.config,
        x.len() == other_x.len(),
        0 <= l < model.config.num_layers,
        model.layers@[l] == other.layers@[l],
        caches[l] == other_caches[l],
    ensures
        model.decoupled_grads(x, caches, lambda).layers[l] == other.decoupled_grads(
            other_x,
            other_caches,
            lambda,
        ).layers[l],
{
}

/// Layers learn from below alone: two models with the same embeddings that agree on their first
/// layers hand the layer behind these the same inputs, whatever stands above.
pub proof fn layers_see_only_what_is_below<A: Arith>(
    model: AxiomModel<A>,
    other: AxiomModel<A>,
    x: Seq<usize>,
    l: nat,
)
    requires
        model.config == other.config,
        model.max_seq_len == other.max_seq_len,
        model.embeddings@ == other.embeddings@,
        model.pos_embeddings@ == other.pos_embeddings@,
        agree(model.layers@, other.layers@, l),
    ensures
        model.inputs_of_layer(x, l) == other.inputs_of_layer(x, l),
    decreases l,
{
    if l > 0 {
        layers_see_only_what_is_below(model, other, x, (l - 1) as nat);
        assert(model.layers@[l - 1] == other.layers@[l - 1]);
    }
    assert(model.inputs_of_layer(x, l) =~= other.inputs_of_layer(x, l));
}

/// Every token costs the same, however long the context: after `n` tokens a FORGE model has
/// counted `n` times the FLOPs of one, besides what it had counted before.
pub proof fn every_token_costs_the_same<A: Arith>(
    model: ForgeModelValues<A>,
    tokens: Seq<usize>,
    n: nat,
)
    requires
        model.has_room(n as int),
        1 <= n <= tokens.len(),
        model.max_seq > 0,
        forall|t: int| 0 <= t < tokens.len() ==> #[trigger] tokens[t] < model.vocab,
    ensures
        model.after(tokens, n).total_flops == model.total_flops + pending_sum::<A>(
            model.blocks,
            model.blocks.len(),
        ) + n * model.flops_per_token(),
        model.after(tokens, n).flops_per_token() == model.flops_per_token(),
{
    model.lemma_total(tokens, n, n as int);
}

/// Resetting the fast weights undoes an adaptation: whatever the memory was adapted to, it is as
/// if it had been reset in the first place.
pub proof fn resetting_undoes_an_adaptation<A: Arith>(m: MrmValues<A>, f: FastWeights<A::T>)
    requires
        m.wf(),
        f.pair matches Some(p) ==> p.0.len() == m.d && p.1.len() == m.d,
    ensures
        m.with_fast_weights(f).with_fast_weights(no_fast_weights()) == m.with_fast_weights(
            no_fast_weights(),
        ),
{
}

/// Products commute, and a share and its complement make a whole. Floats round, and keep this
/// only approximately.
pub open spec fn mixing_is_exact<A: Arith>() -> bool {
    &&& forall|a: A::T, b: A::T| #[trigger] s_times::<A>(a, b) == s_times::<A>(b, a)
    &&& forall|a: A::T| #[trigger] s_times::<A>(one::<A>(), a) == a
    &&& forall|a: A::T| #[trigger] s_plus::<A>(s_minus::<A>(one::<A>(), a), a) == one::<A>()
}

/// What is added to an element is added to the sum.
proof fn lemma_sum_with_more<A: Arith>(s: Seq<A::T>, t: int, x: A::T, n: nat)
    requires
        sums_are_exact::<A>(),
        0 <= t < s.len(),
        n <= s.len(),
    ensures
        sum_of::<A>(s.update(t, s_plus::<A>(s[t], x)), n) == if n <= t {
            sum_of::<A>(s, n)
        } else {
            s_plus::<A>(sum_of::<A>(s, n), x)
        },
    decreases n,
{
    reveal(sums_are_exact);
    if n > 0 {
        lemma_sum_with_more::<A>(s, t, x, (n - 1) as nat);
        let before = sum_of::<A>(s, (n - 1) as nat);
        if n - 1 > t {
            let v = s[n - 1];
            assert(s_plus::<A>(s_plus::<A>(before, x), v) == s_plus::<A>(
                before,
                s_plus::<A>(x, v),
            ));
            assert(s_plus::<A>(x, v) == s_plus::<A>(v, x));
            assert(s_plus::<A>(s_plus::<A>(before, v), x) == s_plus::<A>(
                before,
                s_plus::<A>(v, x),
            ));
        } else if n - 1 == t {
            assert(s_plus::<A>(s_plus::<A>(before, s[t]), x) == s_plus::<A>(
                before,
                s_plus::<A>(s[t], x),
            ));
        }
    }
}

/// What is scattered over a distribution is added to its sum.
proof fn lemma_sum_of_scattered<A: Arith>(
    dist: Seq<A::T>,
    tokens: Seq<u32>,
    weights: Seq<A::T>,
    alpha: A::T,
    n: nat,
)
    requires
        sums_are_exact::<A>(),
        mixing_is_exact::<A>(),
        n <= tokens.len(),
        n <= weights.len(),
        forall|i: int| 0 <= i < tokens.len() ==> #[trigger] tokens[i] < dist.len(),
    ensures
        scattered::<A>(dist, tokens, weights, alpha, n).len() == dist.len(),
        sum_of::<A>(scattered::<A>(dist, tokens, weights, alpha, n), dist.len()) == s_plus::<A>(
            sum_of::<A>(dist, dist.len()),
            sum_of::<A>(scaled::<A>(weights, alpha), n),
        ),
    decreases n,
{
    reveal(sums_are_exact);
    let total = sum_of::<A>(dist, dist.len());
    if n > 0 {
        lemma_sum_of_scattered::<A>(dist, tokens, weights, alpha, (n - 1) as nat);
        let before = scattered::<A>(dist, tokens, weights, alpha, (n - 1) as nat);
        let t = tokens[n - 1] as int;
        let x = s_times::<A>(alpha, weights[n - 1]);
        assert(tokens[n - 1] < dist.len());
        lemma_sum_with_more::<A>(before, t, x, dist.len());
        let spread = sum_of::<A>(scaled::<A>(weights, alpha), (n - 1) as nat);
        assert(scaled::<A>(weights, alpha)[n - 1] == x);
        assert(s_plus::<A>(s_plus::<A>(total, spread), x) == s_plus::<A>(
            total,
            s_plus::<A>(spread, x),
        ));
    } else {
        assert(s_plus::<A>(total, zero::<A>()) == total);
    }
}

/// The interpolated distribution sums to one: where arithmetic is exact, mixing a distribution
/// with the copy distribution of a buffer whose tokens are all in the vocabulary leaves its sum
/// at one.
pub proof fn interpolated_distribution_sums_to_one<A: Arith>(
    dist: Seq<A::T>,
    tokens: Seq<u32>,
    query: Seq<A::T>,
    embed_table: Seq<A::T>,
    alpha: A::T,
)
    requires
        sums_are_exact::<A>(),
        division_is_exact::<A>(),
        mixing_is_exact::<A>(),
        sum_of::<A>(dist, dist.len()) == one::<A>(),
        forall|i: int| 0 <= i < tokens.len() ==> #[trigger] tokens[i] < dist.len(),
        ({
            let scores = attention_scores::<A>(tokens, query, embed_table, dist.len());
            s_exceeds::<A>(
                sum_of::<A>(
                    exponentials::<A>(scores, max_of::<A>(scores, scores.len())),
                    scores.len(),
                ),
                zero::<A>(),
            )
        }),
    ensures
        sum_of::<A>(
            mixed_with_copy::<A>(dist, tokens, query, embed_table, alpha),
            dist.len(),
        ) == one::<A>(),
{
    let scores = attention_scores::<A>(tokens, query, embed_table, dist.len());
    let weights = softmax_of::<A>(scores);
    let kept = s_minus::<A>(one::<A>(), alpha);
    softmax_sums_to_one::<A>(scores);
    lemma_sum_of_scaled::<A>(dist, kept, dist.len());
    lemma_sum_of_scaled::<A>(weights, alpha, weights.len());
    lemma_sum_of_scattered::<A>(
        scaled::<A>(dist, kept),
        tokens,
        weights,
        alpha,
        tokens.len(),
    );
}

/// Products of products can be regrouped, a square comes out of a root, and a quotient times its
/// divisor is the dividend. Floats round, and keep this only approximately.
pub open spec fn roots_are_exact<A: Arith>() -> bool {
    &&& forall|a: A::T, c: A::T|
        #![trigger s_times::<A>(s_times::<A>(a, c), s_times::<A>(a, c))]
        s_times::<A>(s_times::<A>(a, c), s_times::<A>(a, c)) == s_times::<A>(
            s_times::<A>(a, a),
            s_times::<A>(c, c),
        )
    &&& forall|a: A::T, c: A::T|
        !s_exceeds::<A>(zero::<A>(), c) ==> #[trigger] s_sqrt::<A>(
            s_times::<A>(a, s_times::<A>(c, c)),
        ) == s_times::<A>(s_sqrt::<A>(a), c)
    &&& forall|a: A::T, b: A::T|
        s_exceeds::<A>(b, zero::<A>()) ==> #[trigger] s_times::<A>(b, s_over::<A>(a, b)) == a
}

/// The squares of scaled values.
proof fn lemma_scaled_squares<A: Arith>(m: Seq<A::T>, c: A::T, n: nat)
    requires
        division_is_exact::<A>(),
        roots_are_exact::<A>(),
        n <= m.len(),
    ensures
        sum_of_squares::<A>(scaled::<A>(m, c), n) == s_times::<A>(
            sum_of_squares::<A>(m, n),
            s_times::<A>(c, c),
        ),
    decreases n,
{
    if n > 0 {
        lemma_scaled_squares::<A>(m, c, (n - 1) as nat);
        assert(scaled::<A>(m, c)[n - 1] == s_times::<A>(m[n - 1], c));
    }
}

/// Clipping bounds the norm: where arithmetic is exact, a memory matrix scaled by the ratio of
/// the largest norm to its own has exactly the largest norm.
pub proof fn clipping_bounds_the_norm<A: Arith>(m: Seq<A::T>, max_norm: A::T)
    requires
        division_is_exact::<A>(),
        roots_are_exact::<A>(),
        s_exceeds::<A>(frobenius_of::<A>(m), zero::<A>()),
        !s_exceeds::<A>(zero::<A>(), s_over::<A>(max_norm, frobenius_of::<A>(m))),
    ensures
        frobenius_of::<A>(scaled::<A>(m, s_over::<A>(max_norm, frobenius_of::<A>(m)))) == max_norm,
{
    let c = s_over::<A>(max_norm, frobenius_of::<A>(m));
    lemma_scaled_squares::<A>(m, c, m.len());
}

} // verus!
