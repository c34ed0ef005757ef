//! What holds of losses where numbers are ordered.

use vstd::prelude::*;
use crate::arith::{
    Arith, one, s_exceeds, s_exp, s_larger, s_ln, s_lit, s_negate, s_over, s_plus, s_times, zero,
};
use crate::gru::GruModel;
use crate::softmax::{cross_entropy_of, exponentials, max_of, softmax_of, sum_of};
use crate::transformer_model::TransformerModel;

verus! {

/// Whether `a` is at most `b`.
pub open spec fn at_most<A: Arith>(a: A::T, b: A::T) -> bool {
    !s_exceeds::<A>(a, b)
}

/// Numbers are ordered: sums and products with numbers from zero on keep the order, zero adds
/// nothing, a positive number times its reciprocal is one, exponentials are not negative, and the
/// logarithm of a number up to one is not positive. Floats that are neither infinite nor undefined
/// keep this but for the reciprocal, which they round.
#[verifier::opaque]
pub open spec fn numbers_are_ordered<A: Arith>() -> bool {
    &&& forall|a: A::T| at_most::<A>(a, a)
    &&& forall|a: A::T, b: A::T, c: A::T|
        #![trigger at_most::<A>(a, b), at_most::<A>(b, c)]
        at_most::<A>(a, b) && at_most::<A>(b, c) ==> at_most::<A>(a, c)
    &&& forall|a: A::T, b: A::T, c: A::T|
        #![trigger s_plus::<A>(a, c), s_plus::<A>(b, c)]
        at_most::<A>(a, b) ==> at_most::<A>(s_plus::<A>(a, c), s_plus::<A>(b, c))
    &&& forall|a: A::T, b: A::T, c: A::T|
        #![trigger s_plus::<A>(c, a), s_plus::<A>(c, b)]
        at_most::<A>(a, b) ==> at_most::<A>(s_plus::<A>(c, a), s_plus::<A>(c, b))
    &&& forall|a: A::T| #[trigger] s_plus::<A>(a, zero::<A>()) == a
    &&& forall|a: A::T| #[trigger] s_plus::<A>(zero::<A>(), a) == a
    &&& forall|a: A::T, b: A::T, c: A::T|
        #![trigger s_times::<A>(a, c), s_times::<A>(b, c)]
        at_most::<A>(a, b) && at_most::<A>(zero::<A>(), c) ==> at_most::<A>(
            s_times::<A>(a, c),
            s_times::<A>(b, c),
        )
    &&& forall|a: A::T| #[trigger] s_times::<A>(a, zero::<A>()) == zero::<A>()
    &&& forall|t: A::T|
        #![trigger s_over::<A>(one::<A>(), t)]
        s_exceeds::<A>(t, zero::<A>()) ==> at_most::<A>(zero::<A>(), s_over::<A>(one::<A>(), t))
            && s_times::<A>(t, s_over::<A>(one::<A>(), t)) == one::<A>()
    &&& forall|a: A::T| at_most::<A>(zero::<A>(), #[trigger] s_exp::<A>(a))
    &&& forall|a: A::T|
        s_exceeds::<A>(a, zero::<A>()) && at_most::<A>(a, one::<A>()) ==> at_most::<A>(
            zero::<A>(),
            s_negate::<A>(#[trigger] s_ln::<A>(a)),
        )
    &&& forall|a: A::T, b: A::T|
        #![trigger s_larger::<A>(a, b)]
        at_most::<A>(b, s_larger::<A>(a, b)) && (s_larger::<A>(a, b) == a || s_larger::<A>(a, b)
            == b)
    &&& at_most::<A>(zero::<A>(), one::<A>())
    &&& s_exceeds::<A>(s_lit::<A>(1, 12), zero::<A>())
    &&& at_most::<A>(s_lit::<A>(1, 12), one::<A>())
}

/// None of some numbers from zero on is larger than their sum.
proof fn lemma_part_of_sum<A: Arith>(values: Seq<A::T>, i: int, n: nat)
    requires
        numbers_are_ordered::<A>(),
        n <= values.len(),
        forall|k: int| 0 <= k < values.len() ==> at_most::<A>(zero::<A>(), #[trigger] values[k]),
    ensures
        at_most::<A>(zero::<A>(), sum_of::<A>(values, n)),
        0 <= i < n ==> at_most::<A>(values[i], sum_of::<A>(values, n)),
    decreases n,
{
    reveal(numbers_are_ordered);
    if n == 0 {
        assert(at_most::<A>(zero::<A>(), zero::<A>()));
    } else {
        let k = (n - 1) as nat;
        lemma_part_of_sum::<A>(values, i, k);
        let (before, last) = (sum_of::<A>(values, k), values[n - 1]);
        assert(at_most::<A>(zero::<A>(), last));
        assert(at_most::<A>(s_plus::<A>(before, zero::<A>()), s_plus::<A>(before, last)));
        assert(at_most::<A>(s_plus::<A>(zero::<A>(), last), s_plus::<A>(before, last)));
        assert(at_most::<A>(before, sum_of::<A>(values, n)));
        assert(at_most::<A>(last, sum_of::<A>(values, n)));
        assert(at_most::<A>(zero::<A>(), before));
        if 0 <= i < k {
            assert(at_most::<A>(values[i], before));
        }
    }
}

/// A probability of a softmax is at most one.
pub proof fn probabilities_are_at_most_one<A: Arith>(logits: Seq<A::T>, i: int)
    requires
        numbers_are_ordered::<A>(),
        0 <= i < logits.len(),
    ensures
        at_most::<A>(softmax_of::<A>(logits)[i], one::<A>()),
{
    reveal(numbers_are_ordered);
    let exps = exponentials::<A>(logits, max_of::<A>(logits, logits.len()));
    let total = sum_of::<A>(exps, exps.len());
    lemma_part_of_sum::<A>(exps, i, exps.len());
    if s_exceeds::<A>(total, zero::<A>()) {
        let inverse = s_over::<A>(one::<A>(), total);
        assert(at_most::<A>(s_times::<A>(exps[i], inverse), s_times::<A>(total, inverse)));
    } else {
        assert(s_times::<A>(exps[i], zero::<A>()) == zero::<A>());
    }
}

/// The loss of a token is never negative.
pub proof fn cross_entropy_is_not_negative<A: Arith>(logits: Seq<A::T>, target: int)
    requires
        numbers_are_ordered::<A>(),
        0 <= target < logits.len(),
    ensures
        at_most::<A>(zero::<A>(), cross_entropy_of::<A>(logits, target)),
{
    probabilities_are_at_most_one::<A>(logits, target);
    reveal(numbers_are_ordered);
    let least = s_lit::<A>(1, 12);
    let p = s_larger::<A>(softmax_of::<A>(logits)[target], least);
    assert(at_most::<A>(least, p));
    if at_most::<A>(p, zero::<A>()) {
        assert(at_most::<A>(least, zero::<A>()));
    }
    assert(at_most::<A>(p, one::<A>()));
    assert(at_most::<A>(zero::<A>(), s_negate::<A>(s_ln::<A>(p))));
}

/// The loss of the Transformer over no tokens is zero; it is never negative, and never falls as
/// tokens are added.
pub proof fn transformer_loss_never_falls<A: Arith>(
    model: TransformerModel<A>,
    x: Seq<usize>,
    y: Seq<usize>,
    n: nat,
)
    requires
        numbers_are_ordered::<A>(),
        model.accepts(x, y),
        n <= x.len(),
    ensures
        model.loss_of(x, y, 0) == zero::<A>(),
        at_most::<A>(zero::<A>(), model.loss_of(x, y, n)),
        n < x.len() ==> at_most::<A>(model.loss_of(x, y, n), model.loss_of(x, y, n + 1)),
    decreases n,
{
    if n > 0 {
        transformer_loss_never_falls(model, x, y, (n - 1) as nat);
    }
    if n < x.len() {
        assert(y[n as int] < model.vocab_size);
        cross_entropy_is_not_negative::<A>(model.logits_of(x, n as int), y[n as int] as int);
    }
    lemma_sums_of_losses::<A>(
        model.loss_of(x, y, n),
        cross_entropy_of::<A>(model.logits_of(x, n as int), y[n as int] as int),
    );
    if n > 0 {
        lemma_chain::<A>(model.loss_of(x, y, (n - 1) as nat), model.loss_of(x, y, n));
    }
}

/// The loss of the GRU over no tokens is zero; it is never negative, and never falls as tokens are
/// added.
pub proof fn gru_loss_never_falls<A: Arith>(
    model: GruModel<A>,
    x: Seq<usize>,
    y: Seq<usize>,
    n: nat,
)
    requires
        numbers_are_ordered::<A>(),
        n <= x.len() <= y.len(),
        forall|t: int| 0 <= t < x.len() ==> #[trigger] y[t] < model.vocab_size,
    ensures
        model.loss_of(x, y, 0) == zero::<A>(),
        at_most::<A>(zero::<A>(), model.loss_of(x, y, n)),
        n < x.len() ==> at_most::<A>(model.loss_of(x, y, n), model.loss_of(x, y, n + 1)),
    decreases n,
{
    if n > 0 {
        gru_loss_never_falls(model, x, y, (n - 1) as nat);
    }
    if n < x.len() {
        assert(y[n as int] < model.vocab_size);
        cross_entropy_is_not_negative::<A>(model.step_at(x, n as int).logits, y[n as int] as int);
    }
    lemma_sums_of_losses::<A>(
        model.loss_of(x, y, n),
        cross_entropy_of::<A>(model.step_at(x, n as int).logits, y[n as int] as int),
    );
    if n > 0 {
        lemma_chain::<A>(model.loss_of(x, y, (n - 1) as nat), model.loss_of(x, y, n));
    }
}

/// A number from zero on makes a sum no smaller.
proof fn lemma_sums_of_losses<A: Arith>(sum: A::T, loss: A::T)
    requires
        numbers_are_ordered::<A>(),
    ensures
        at_most::<A>(zero::<A>(), zero::<A>()),
        at_most::<A>(zero::<A>(), loss) ==> at_most::<A>(sum, s_plus::<A>(sum, loss)),
{
    reveal(numbers_are_ordered);
    assert(at_most::<A>(zero::<A>(), zero::<A>()));
    if at_most::<A>(zero::<A>(), loss) {
        assert(at_most::<A>(s_plus::<A>(sum, zero::<A>()), s_plus::<A>(sum, loss)));
    }
}

/// What is at least a number from zero on is one itself.
proof fn lemma_chain<A: Arith>(a: A::T, b: A::T)
    requires
        numbers_are_ordered::<A>(),
        at_most::<A>(zero::<A>(), a),
        at_most::<A>(a, b),
    ensures
        at_most::<A>(zero::<A>(), b),
{
    reveal(numbers_are_ordered);
}

} // verus!
