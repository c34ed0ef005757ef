//! What holds of softmax, sampling temperatures, losses, bits per character and copying, of exact
//! numbers.

use vstd::prelude::*;
use crate::arith::{Arith, one, s_count, s_exp, s_larger, s_lit, s_minus, s_over, s_sqrt};
use crate::buffer::{attention_scores, mixed_with_copy, scattered};
use crate::exact::{
    exact, exponentials_multiply, lemma_num_dot, lemma_num_max, lemma_num_sum, lemma_total_at_least,
    lemma_total_at_most, lemma_total_same, lemma_zero_one, power_of_ten, told_apart, total,
};
use crate::freezing_trainer::upper_summary;
use crate::forge_eval::mean_over;
use crate::softmax::{
    exponentials, max_of, normalizer, softmax_of, softmax_temperature_of, sum_of,
};
use crate::stacked_trainer::bpc_of;
use crate::tensor::{lemma_row_bounds, row_of, scaled};
use crate::trainer::mean_and_bpc;

verus! {

/// The exponential behind the softmax weight `i`, relative to the largest.
spec fn share<A: Arith>(num: spec_fn(A::T) -> real, logits: Seq<A::T>, i: int) -> real {
    num(s_exp::<A>(s_minus::<A>(logits[i], max_of::<A>(logits, logits.len()))))
}

/// The shares of a softmax are positive and add up to the divisor of each.
proof fn lemma_shares<A: Arith>(num: spec_fn(A::T) -> real, logits: Seq<A::T>, i: int)
    requires
        exact::<A>(num),
        0 <= i < logits.len(),
    ensures
        total(logits.len(), |j: int| share::<A>(num, logits, j)) > 0real,
        share::<A>(num, logits, i) > 0real,
        num(softmax_of::<A>(logits)[i]) == share::<A>(num, logits, i) / total(
            logits.len(),
            |j: int| share::<A>(num, logits, j),
        ),
{
    let n = logits.len();
    let exps = exponentials::<A>(logits, max_of::<A>(logits, n));
    lemma_num_sum::<A>(num, exps, n);
    lemma_zero_one::<A>(num);
    reveal(exact);
    let f = |j: int| share::<A>(num, logits, j);
    lemma_total_same(n, |j: int| num(exps[j]), f);
    assert forall|j: int| 0 <= j < n implies #[trigger] f(j) >= 0real by {
        assert(num(s_exp::<A>(s_minus::<A>(logits[j], max_of::<A>(logits, n)))) > 0real);
    }
    lemma_total_at_least(n, f, i);
    assert(f(i) > 0real);
    let t = sum_of::<A>(exps, n);
    assert(num(t) == total(n, f));
    assert(num(normalizer::<A>(t)) == 1real / num(t));
    let (e, s) = (num(exps[i]), num(t));
    assert(e * (1real / s) == e / s) by (nonlinear_arith)
        requires
            s > 0real,
    ;
}

/// Probabilities follow their logits: a larger logit has no smaller a probability, and all are
/// positive.
pub proof fn softmax_follows_the_logits<A: Arith>(
    num: spec_fn(A::T) -> real,
    logits: Seq<A::T>,
    i: int,
    j: int,
)
    requires
        exact::<A>(num),
        0 <= i < logits.len(),
        0 <= j < logits.len(),
        num(logits[i]) <= num(logits[j]),
    ensures
        0real < num(softmax_of::<A>(logits)[i]) <= num(softmax_of::<A>(logits)[j]),
{
    lemma_shares::<A>(num, logits, i);
    lemma_shares::<A>(num, logits, j);
    let s = total(logits.len(), |k: int| share::<A>(num, logits, k));
    let (a, b) = (share::<A>(num, logits, i), share::<A>(num, logits, j));
    assert(a <= b) by {
        reveal(exact);
    }
    assert(0real < a / s <= b / s) by (nonlinear_arith)
        requires
            s > 0real,
            0real < a <= b,
    ;
}

/// Two probabilities are to each other as the exponentials of their logits: the second is the first
/// times the exponential of the difference.
pub proof fn softmax_ratios_are_exponentials<A: Arith>(
    num: spec_fn(A::T) -> real,
    logits: Seq<A::T>,
    i: int,
    j: int,
    difference: A::T,
)
    requires
        exact::<A>(num),
        exponentials_multiply::<A>(num),
        0 <= i < logits.len(),
        0 <= j < logits.len(),
        num(difference) == num(logits[j]) - num(logits[i]),
    ensures
        num(softmax_of::<A>(logits)[j]) == num(softmax_of::<A>(logits)[i]) * num(
            s_exp::<A>(difference),
        ),
{
    lemma_shares::<A>(num, logits, i);
    lemma_shares::<A>(num, logits, j);
    let s = total(logits.len(), |k: int| share::<A>(num, logits, k));
    let (a, b) = (share::<A>(num, logits, i), share::<A>(num, logits, j));
    let e = num(s_exp::<A>(difference));
    let m = max_of::<A>(logits, logits.len());
    assert(b == a * e) by {
        reveal(exact);
        reveal(exponentials_multiply);
        let (x, y) = (s_minus::<A>(logits[i], m), s_minus::<A>(logits[j], m));
        assert(num(y) == num(x) + num(difference));
        assert(num(s_exp::<A>(y)) == num(s_exp::<A>(x)) * num(s_exp::<A>(difference)));
    }
    assert((a * e) / s == (a / s) * e) by (nonlinear_arith)
        requires
            s > 0real,
    ;
}

/// A millionth.
pub open spec fn is_millionth(x: real) -> bool {
    x * 1000000real == 1real
}

/// What the literal of a millionth stands for.
proof fn lemma_millionth<A: Arith>(num: spec_fn(A::T) -> real)
    requires
        exact::<A>(num),
    ensures
        is_millionth(num(s_lit::<A>(1, 6))),
        num(s_lit::<A>(1, 6)) > 0real,
{
    reveal(exact);
    reveal_with_fuel(power_of_ten, 7);
    assert(power_of_ten(6) == 1000000);
    let x = num(s_lit::<A>(1, 6));
    assert(x * (1000000nat as real) == 1real);
    assert(x > 0real) by (nonlinear_arith)
        requires
            x * 1000000real == 1real,
    ;
}

/// A logit at a temperature: it is divided by it.
proof fn lemma_cooled<A: Arith>(
    num: spec_fn(A::T) -> real,
    logits: Seq<A::T>,
    temperature: A::T,
    i: int,
)
    requires
        exact::<A>(num),
        num(temperature) >= num(s_lit::<A>(1, 6)),
        0 <= i < logits.len(),
    ensures
        num(
            scaled::<A>(
                logits,
                s_over::<A>(one::<A>(), s_larger::<A>(temperature, s_lit::<A>(1, 6))),
            )[i],
        ) == num(logits[i]) / num(temperature),
{
    lemma_millionth::<A>(num);
    lemma_zero_one::<A>(num);
    reveal(exact);
    let (l, t) = (num(logits[i]), num(temperature));
    assert(l * (1real / t) == l / t) by (nonlinear_arith)
        requires
            t > 0real,
    ;
}

/// A temperature undoes a factor: the softmax at a temperature of logits that were all multiplied
/// by it is the softmax of the logits.
pub proof fn temperatures_divide_the_logits<A: Arith>(
    num: spec_fn(A::T) -> real,
    logits: Seq<A::T>,
    temperature: A::T,
)
    requires
        exact::<A>(num),
        told_apart::<A>(num),
        num(temperature) * 1000000real >= 1real,
    ensures
        softmax_temperature_of::<A>(scaled::<A>(logits, temperature), temperature) == softmax_of::<A>(
            logits,
        ),
{
    lemma_millionth::<A>(num);
    let (t, m) = (num(temperature), num(s_lit::<A>(1, 6)));
    assert(t >= m) by (nonlinear_arith)
        requires
            t * 1000000real >= 1real,
            m * 1000000real == 1real,
    ;
    let hot = scaled::<A>(logits, temperature);
    let back = scaled::<A>(
        hot,
        s_over::<A>(one::<A>(), s_larger::<A>(temperature, s_lit::<A>(1, 6))),
    );
    assert forall|i: int| 0 <= i < logits.len() implies back[i] == logits[i] by {
        lemma_cooled::<A>(num, hot, temperature, i);
        reveal(exact);
        let l = num(logits[i]);
        assert(num(hot[i]) == l * t);
        assert((l * t) / t == l) by (nonlinear_arith)
            requires
                t > 0real,
        ;
        assert(num(back[i]) == num(logits[i]));
    }
    assert(back =~= logits);
}

/// A lower temperature sharpens: of two temperatures from a millionth on, the lower one gives the
/// largest logit no smaller a probability.
pub proof fn lower_temperatures_sharpen<A: Arith>(
    num: spec_fn(A::T) -> real,
    logits: Seq<A::T>,
    low: A::T,
    high: A::T,
    i: int,
)
    requires
        exact::<A>(num),
        num(low) * 1000000real >= 1real,
        num(low) <= num(high),
        0 <= i < logits.len(),
        forall|j: int| 0 <= j < logits.len() ==> num(#[trigger] logits[j]) <= num(logits[i]),
    ensures
        num(softmax_temperature_of::<A>(logits, high)[i]) <= num(
            softmax_temperature_of::<A>(logits, low)[i],
        ),
{
    lemma_millionth::<A>(num);
    let n = logits.len();
    let (a, b, m) = (num(low), num(high), num(s_lit::<A>(1, 6)));
    assert(a >= m && a > 0real) by (nonlinear_arith)
        requires
            a * 1000000real >= 1real,
            m * 1000000real == 1real,
    ;
    let cold = scaled::<A>(
        logits,
        s_over::<A>(one::<A>(), s_larger::<A>(low, s_lit::<A>(1, 6))),
    );
    let warm = scaled::<A>(
        logits,
        s_over::<A>(one::<A>(), s_larger::<A>(high, s_lit::<A>(1, 6))),
    );
    lemma_num_max::<A>(num, cold, n);
    lemma_num_max::<A>(num, warm, n);
    lemma_largest_scaled::<A>(num, logits, low, cold, i);
    lemma_largest_scaled::<A>(num, logits, high, warm, i);
    let f = |j: int| share::<A>(num, cold, j);
    let g = |j: int| share::<A>(num, warm, j);
    assert forall|j: int| 0 <= j < n implies #[trigger] f(j) <= g(j) by {
        lemma_cooled::<A>(num, logits, low, j);
        lemma_cooled::<A>(num, logits, high, j);
        lemma_cooled::<A>(num, logits, low, i);
        lemma_cooled::<A>(num, logits, high, i);
        let (x, y) = (num(logits[j]), num(logits[i]));
        assert(x <= y);
        assert(x / a - y / a <= x / b - y / b) by (nonlinear_arith)
            requires
                0real < a <= b,
                x <= y,
        ;
        reveal(exact);
    }
    lemma_total_at_most(n, f, g);
    lemma_shares::<A>(num, cold, i);
    lemma_shares::<A>(num, warm, i);
    assert(f(i) == g(i)) by {
        reveal(exact);
    }
    let (e, s, t) = (f(i), total(n, f), total(n, g));
    assert(e / t <= e / s) by (nonlinear_arith)
        requires
            0real < s <= t,
            e > 0real,
    ;
}

/// Where a logit is the largest it stays so at any temperature.
proof fn lemma_largest_scaled<A: Arith>(
    num: spec_fn(A::T) -> real,
    logits: Seq<A::T>,
    temperature: A::T,
    cooled: Seq<A::T>,
    i: int,
)
    requires
        exact::<A>(num),
        num(temperature) >= num(s_lit::<A>(1, 6)),
        cooled == scaled::<A>(
            logits,
            s_over::<A>(one::<A>(), s_larger::<A>(temperature, s_lit::<A>(1, 6))),
        ),
        0 <= i < logits.len(),
        forall|j: int| 0 <= j < logits.len() ==> num(#[trigger] logits[j]) <= num(logits[i]),
    ensures
        num(max_of::<A>(cooled, cooled.len())) == num(cooled[i]),
{
    lemma_millionth::<A>(num);
    lemma_num_max::<A>(num, cooled, cooled.len());
    let k = choose|k: int|
        0 <= k < cooled.len() && #[trigger] cooled[k] == max_of::<A>(cooled, cooled.len());
    lemma_cooled::<A>(num, logits, temperature, k);
    lemma_cooled::<A>(num, logits, temperature, i);
    let (x, y, t) = (num(logits[k]), num(logits[i]), num(temperature));
    assert(x <= y);
    assert(x / t <= y / t) by (nonlinear_arith)
        requires
            t > 0real,
            x <= y,
    ;
    assert(num(cooled[i]) <= num(max_of::<A>(cooled, cooled.len())));
}

/// `bits` are the bits per character of `loss` over some tokens: a bit is worth ln 2, which lies
/// between 0.6931 and 0.6932, in nats, so that the bits of all tokens come to the loss.
pub open spec fn are_bits_of(bits: real, loss: real, tokens: real) -> bool {
    if loss >= 0real {
        6931real * (bits * tokens) <= 10000real * loss <= 6932real * (bits * tokens)
    } else {
        6932real * (bits * tokens) <= 10000real * loss <= 6931real * (bits * tokens)
    }
}

/// The natural logarithm of two, to eighteen places.
proof fn lemma_ln_two<A: Arith>(num: spec_fn(A::T) -> real)
    requires
        exact::<A>(num),
    ensures
        6931real <= 10000real * num(s_lit::<A>(693147180559945309, 18)) <= 6932real,
{
    reveal(exact);
    reveal_with_fuel(power_of_ten, 19);
    assert(power_of_ten(18) == 1000000000000000000);
    let x = num(s_lit::<A>(693147180559945309, 18));
    assert(x * (1000000000000000000nat as real) == 693147180559945309u64 as real);
    assert(6931real <= 10000real * x <= 6932real) by (nonlinear_arith)
        requires
            x * 1000000000000000000real == 693147180559945309real,
    ;
}

/// A mean in bits times the tokens and ln 2 is the loss.
proof fn lemma_bits(bits: real, loss: real, tokens: real, ln2: real)
    requires
        tokens > 0real,
        6931real <= 10000real * ln2 <= 6932real,
        bits == (loss / tokens) / ln2,
    ensures
        are_bits_of(bits, loss, tokens),
        bits * ln2 * tokens == loss,
{
    let mean = loss / tokens;
    assert(mean * tokens == loss) by (nonlinear_arith)
        requires
            tokens > 0real,
            mean == loss / tokens,
    ;
    assert(bits * ln2 == mean) by (nonlinear_arith)
        requires
            10000real * ln2 >= 6931real,
            bits == mean / ln2,
    ;
    let all = bits * tokens;
    assert(all * ln2 == loss) by (nonlinear_arith)
        requires
            bits * ln2 == mean,
            mean * tokens == loss,
            all == bits * tokens,
    ;
    assert(bits * ln2 * tokens == all * ln2) by (nonlinear_arith)
        requires
            all == bits * tokens,
    ;
    if loss >= 0real {
        assert(all >= 0real) by (nonlinear_arith)
            requires
                all * ln2 == loss,
                loss >= 0real,
                10000real * ln2 >= 6931real,
        ;
        assert(6931real * all <= 10000real * loss <= 6932real * all) by (nonlinear_arith)
            requires
                all * ln2 == loss,
                all >= 0real,
                6931real <= 10000real * ln2 <= 6932real,
        ;
    } else {
        assert(all <= 0real) by (nonlinear_arith)
            requires
                all * ln2 == loss,
                loss < 0real,
                10000real * ln2 >= 6931real,
        ;
        assert(6932real * all <= 10000real * loss <= 6931real * all) by (nonlinear_arith)
            requires
                all * ln2 == loss,
                all <= 0real,
                6931real <= 10000real * ln2 <= 6932real,
        ;
    }
}

/// Bits per character measure the loss in units of ln 2, in every evaluation: the bits of all
/// tokens, each worth ln 2, are the total loss. A stacked layer, a single layer, an upper layer and
/// a FORGE model with the same total report the same.
pub proof fn bits_measure_the_loss<A: Arith>(
    num: spec_fn(A::T) -> real,
    loss: A::T,
    tokens: usize,
)
    requires
        exact::<A>(num),
        tokens > 0,
    ensures
        are_bits_of(num(bpc_of::<A>(loss, tokens)), num(loss), tokens as real),
        num(mean_and_bpc::<A>(loss, tokens).0) * (tokens as real) == num(loss),
        num(mean_and_bpc::<A>(loss, tokens).1) == num(bpc_of::<A>(loss, tokens)),
        num(upper_summary::<A>(loss, tokens).0) * (tokens as real) == num(loss),
        num(upper_summary::<A>(loss, tokens).1) == num(bpc_of::<A>(loss, tokens)),
        num(mean_over::<A>(loss, tokens as int).0) * (tokens as real) == num(loss),
        num(mean_over::<A>(loss, tokens as int).1) == num(bpc_of::<A>(loss, tokens)),
{
    lemma_ln_two::<A>(num);
    reveal(exact);
    let ln2 = num(s_lit::<A>(693147180559945309, 18));
    let (l, n) = (num(loss), tokens as real);
    assert(num(s_count::<A>(tokens)) == n);
    assert((l / n) * n == l) by (nonlinear_arith)
        requires
            n > 0real,
    ;
    lemma_bits(num(bpc_of::<A>(loss, tokens)), l, n, ln2);
}

/// The inner product of the query and the embedding of a token.
pub open spec fn match_of<A: Arith>(
    num: spec_fn(A::T) -> real,
    query: Seq<A::T>,
    embed_table: Seq<A::T>,
    token: u32,
) -> real {
    total(
        query.len(),
        |k: int| num(query[k]) * num(embed_table[token * query.len() + k]),
    )
}

/// Attention copies what matches: of two tokens in the buffer the one whose embedding has the larger
/// inner product with the query has no smaller a weight.
pub proof fn attention_follows_the_query<A: Arith>(
    num: spec_fn(A::T) -> real,
    tokens: Seq<u32>,
    query: Seq<A::T>,
    embed_table: Seq<A::T>,
    vocab_size: nat,
    i: int,
    j: int,
)
    requires
        exact::<A>(num),
        0 < query.len() <= usize::MAX,
        embed_table.len() >= vocab_size * query.len(),
        0 <= i < tokens.len(),
        0 <= j < tokens.len(),
        tokens[i] < vocab_size,
        tokens[j] < vocab_size,
        match_of::<A>(num, query, embed_table, tokens[i]) <= match_of::<A>(
            num,
            query,
            embed_table,
            tokens[j],
        ),
    ensures
        ({
            let weights = softmax_of::<A>(
                attention_scores::<A>(tokens, query, embed_table, vocab_size),
            );
            0real < num(weights[i]) <= num(weights[j])
        }),
{
    let scores = attention_scores::<A>(tokens, query, embed_table, vocab_size);
    lemma_score::<A>(num, tokens, query, embed_table, vocab_size, i);
    lemma_score::<A>(num, tokens, query, embed_table, vocab_size, j);
    let scale = num(s_over::<A>(one::<A>(), s_sqrt::<A>(s_count::<A>(query.len() as usize))));
    let (a, b) = (
        match_of::<A>(num, query, embed_table, tokens[i]),
        match_of::<A>(num, query, embed_table, tokens[j]),
    );
    assert(a * scale <= b * scale) by (nonlinear_arith)
        requires
            a <= b,
            scale > 0real,
    ;
    softmax_follows_the_logits::<A>(num, scores, i, j);
}

/// The score of a token: its inner product with the query, times the reciprocal root of their
/// length.
proof fn lemma_score<A: Arith>(
    num: spec_fn(A::T) -> real,
    tokens: Seq<u32>,
    query: Seq<A::T>,
    embed_table: Seq<A::T>,
    vocab_size: nat,
    i: int,
)
    requires
        exact::<A>(num),
        0 < query.len() <= usize::MAX,
        embed_table.len() >= vocab_size * query.len(),
        0 <= i < tokens.len(),
        tokens[i] < vocab_size,
    ensures
        ({
            let scale = num(
                s_over::<A>(one::<A>(), s_sqrt::<A>(s_count::<A>(query.len() as usize))),
            );
            &&& scale > 0real
            &&& scale * scale * (query.len() as real) == 1real
            &&& num(attention_scores::<A>(tokens, query, embed_table, vocab_size)[i]) == match_of::<
                A,
            >(num, query, embed_table, tokens[i]) * scale
        }),
{
    let d = query.len();
    let row = row_of(embed_table, d, tokens[i] as int);
    lemma_row_bounds(vocab_size, d, tokens[i] as int);
    lemma_num_dot::<A>(num, query, row);
    lemma_zero_one::<A>(num);
    lemma_total_same(
        d,
        |k: int| num(query[k]) * num(row[k]),
        |k: int| num(query[k]) * num(embed_table[tokens[i] * d + k]),
    );
    reveal(exact);
    let n = num(s_count::<A>(d as usize));
    let r = num(s_sqrt::<A>(s_count::<A>(d as usize)));
    assert(r > 0real) by (nonlinear_arith)
        requires
            r >= 0real,
            r * r == n,
            n > 0real,
    ;
    let s = 1real / r;
    assert(s > 0real && s * s * n == 1real) by (nonlinear_arith)
        requires
            r > 0real,
            r * r == n,
            s == 1real / r,
    ;
}

/// Attention scores are scaled to the length of the vectors: a score squared times that length is
/// the square of the inner product, and has its sign.
pub proof fn attention_scores_are_scaled<A: Arith>(
    num: spec_fn(A::T) -> real,
    tokens: Seq<u32>,
    query: Seq<A::T>,
    embed_table: Seq<A::T>,
    vocab_size: nat,
    i: int,
)
    requires
        exact::<A>(num),
        0 < query.len() <= usize::MAX,
        embed_table.len() >= vocab_size * query.len(),
        0 <= i < tokens.len(),
        tokens[i] < vocab_size,
    ensures
        ({
            let score = num(attention_scores::<A>(tokens, query, embed_table, vocab_size)[i]);
            let inner = match_of::<A>(num, query, embed_table, tokens[i]);
            &&& score * score * (query.len() as real) == inner * inner
            &&& score >= 0real <==> inner >= 0real
        }),
{
    lemma_score::<A>(num, tokens, query, embed_table, vocab_size, i);
    let scale = num(s_over::<A>(one::<A>(), s_sqrt::<A>(s_count::<A>(query.len() as usize))));
    let m = match_of::<A>(num, query, embed_table, tokens[i]);
    let n = query.len() as real;
    assert((m * scale) * (m * scale) * n == m * m) by (nonlinear_arith)
        requires
            scale * scale * n == 1real,
    ;
    assert(m * scale >= 0real <==> m >= 0real) by (nonlinear_arith)
        requires
            scale > 0real,
    ;
}

/// The weights of the tokens up to `n` that are `v`, added up.
pub open spec fn copied_to<A: Arith>(
    num: spec_fn(A::T) -> real,
    tokens: Seq<u32>,
    weights: Seq<A::T>,
    v: int,
    n: nat,
) -> real {
    total(
        n,
        |i: int|
            if tokens[i] == v {
                num(weights[i])
            } else {
                0real
            },
    )
}

/// Each token gets what is left of its probability, and the mixing share of the weights of its
/// copies in the buffer.
pub proof fn copies_go_to_their_tokens<A: Arith>(
    num: spec_fn(A::T) -> real,
    dist: Seq<A::T>,
    tokens: Seq<u32>,
    query: Seq<A::T>,
    embed_table: Seq<A::T>,
    alpha: A::T,
    v: int,
)
    requires
        exact::<A>(num),
        0 <= v < dist.len(),
    ensures
        ({
            let weights = softmax_of::<A>(
                attention_scores::<A>(tokens, query, embed_table, dist.len()),
            );
            num(mixed_with_copy::<A>(dist, tokens, query, embed_table, alpha)[v]) == (1real - num(
                alpha,
            )) * num(dist[v]) + num(alpha) * copied_to::<A>(
                num,
                tokens,
                weights,
                v,
                tokens.len(),
            )
        }),
{
    let weights = softmax_of::<A>(attention_scores::<A>(tokens, query, embed_table, dist.len()));
    let kept = scaled::<A>(dist, s_minus::<A>(one::<A>(), alpha));
    lemma_scattered::<A>(num, kept, tokens, weights, alpha, v, tokens.len());
    lemma_zero_one::<A>(num);
    reveal(exact);
    let (d, a) = (num(dist[v]), num(alpha));
    assert(d * (1real - a) == (1real - a) * d) by (nonlinear_arith);
}

/// What is scattered to a token.
proof fn lemma_scattered<A: Arith>(
    num: spec_fn(A::T) -> real,
    dist: Seq<A::T>,
    tokens: Seq<u32>,
    weights: Seq<A::T>,
    alpha: A::T,
    v: int,
    n: nat,
)
    requires
        exact::<A>(num),
        0 <= v < dist.len(),
        n <= tokens.len(),
    ensures
        scattered::<A>(dist, tokens, weights, alpha, n).len() == dist.len(),
        num(scattered::<A>(dist, tokens, weights, alpha, n)[v]) == num(dist[v]) + num(alpha)
            * copied_to::<A>(num, tokens, weights, v, n),
    decreases n,
{
    reveal(exact);
    let a = num(alpha);
    if n > 0 {
        lemma_scattered::<A>(num, dist, tokens, weights, alpha, v, (n - 1) as nat);
        let (s, w) = (
            copied_to::<A>(num, tokens, weights, v, (n - 1) as nat),
            num(weights[n - 1]),
        );
        assert(a * (s + w) == a * s + a * w) by (nonlinear_arith);
        assert(a * (s + 0real) == a * s) by (nonlinear_arith);
    } else {
        assert(a * 0real == 0real) by (nonlinear_arith);
    }
}

} // verus!
