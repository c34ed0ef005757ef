//! Zero-allocation top-k selection kernels for sparse MoE expert routing.

use vstd::prelude::*;
use crate::arith::{Arith, lawful, s_exceeds, s_neg_inf};
use crate::softmax::{exponentials, normalize, normalized, sum_of};

verus! {

/// A score and its index.
pub type Entry<T> = (T, usize);

/// Where no score has been selected: below everything, with the index zero.
pub open spec fn no_entry<A: Arith>() -> Entry<A::T> {
    (s_neg_inf::<A>(), 0)
}

/// The two best of the first `n` scores: a score takes over where it exceeds what is there.
pub open spec fn top2_of<A: Arith>(scores: Seq<A::T>, n: nat) -> (Entry<A::T>, Entry<A::T>)
    decreases n,
{
    if n == 0 {
        (no_entry::<A>(), no_entry::<A>())
    } else {
        let (first, second) = top2_of::<A>(scores, (n - 1) as nat);
        let entry = (scores[n - 1], (n - 1) as usize);
        if s_exceeds::<A>(entry.0, first.0) {
            (entry, first)
        } else if s_exceeds::<A>(entry.0, second.0) {
            (first, entry)
        } else {
            (first, second)
        }
    }
}

/// Where a value belongs among the first `p` entries: in front of those at their end that it
/// exceeds.
pub open spec fn place<A: Arith>(entries: Seq<Entry<A::T>>, value: A::T, p: int) -> int
    decreases p,
{
    if p > 0 && s_exceeds::<A>(value, entries[p - 1].0) {
        place::<A>(entries, value, p - 1)
    } else {
        p
    }
}

/// The `k` best of the first `n` scores: a score that exceeds the last entry goes to its
/// place, and the last entry leaves.
pub open spec fn topk_of<A: Arith>(scores: Seq<A::T>, k: nat, n: nat) -> Seq<Entry<A::T>>
    decreases n,
{
    if n == 0 {
        Seq::new(k, |i: int| no_entry::<A>())
    } else {
        let before = topk_of::<A>(scores, k, (n - 1) as nat);
        let value = scores[n - 1];
        if s_exceeds::<A>(value, before[k - 1].0) {
            let p = place::<A>(before, value, k - 1);
            before.take(k - 1).insert(p, (value, (n - 1) as usize))
        } else {
            before
        }
    }
}

/// Fast specialized top-2 selection from a slice of scores (e.g. E = 8 to 64 experts).
/// Returns array of `(score, index)` sorted descending by score.
/// Completely zero heap allocation.
pub fn top2<A: Arith>(scores: &[A::T]) -> (top: [(A::T, usize); 2])
    requires
        lawful::<A>(),
        scores@.len() >= 2,
    ensures
        top@[0] == top2_of::<A>(scores@, scores@.len()).0,
        top@[1] == top2_of::<A>(scores@, scores@.len()).1,
        top@[0].1 < scores@.len(),
        top@[1].1 < scores@.len(),
{
    let mut first_val = A::neg_inf();
    let mut first_idx: usize = 0;
    let mut second_val = A::neg_inf();
    let mut second_idx: usize = 0;
    let mut i: usize = 0;
    while i < scores.len()
        invariant
            lawful::<A>(),
            i <= scores@.len(),
            scores@.len() >= 2,
            first_idx < scores@.len(),
            second_idx < scores@.len(),
            ((first_val, first_idx), (second_val, second_idx)) == top2_of::<A>(scores@, i as nat),
        decreases scores@.len() - i,
    {
        let val = scores[i];
        if A::exceeds(val, first_val) {
            second_val = first_val;
            second_idx = first_idx;
            first_val = val;
            first_idx = i;
        } else if A::exceeds(val, second_val) {
            second_val = val;
            second_idx = i;
        }
        i += 1;
    }
    [(first_val, first_idx), (second_val, second_idx)]
}

/// Generic zero-allocation top-K selection for small K (e.g. K <= 8, E <= 64).
/// Returns array of `(score, index)` sorted descending.
pub fn topk<A: Arith, const K: usize>(scores: &[A::T]) -> (top: [(A::T, usize); K])
    requires
        lawful::<A>(),
        K > 0,
        scores@.len() >= K,
    ensures
        top@ == topk_of::<A>(scores@, K as nat, scores@.len()),
{
    let none = (A::neg_inf(), 0usize);
    let mut result: [(A::T, usize); K] = [none; K];
    assert(result@ =~= topk_of::<A>(scores@, K as nat, 0));
    let mut i: usize = 0;
    while i < scores.len()
        invariant
            lawful::<A>(),
            K > 0,
            i <= scores@.len(),
            result@ == topk_of::<A>(scores@, K as nat, i as nat),
        decreases scores@.len() - i,
    {
        let val = scores[i];
        let ghost before = result@;
        if A::exceeds(val, result[K - 1].0) {
            // Find insertion index in sorted array of length K
            let mut insert_pos: usize = K - 1;
            while insert_pos > 0 && A::exceeds(val, result[insert_pos - 1].0)
                invariant
                    lawful::<A>(),
                    K > 0,
                    insert_pos <= K - 1,
                    result@ == before,
                    place::<A>(before, val, K - 1) == place::<A>(before, val, insert_pos as int),
                decreases insert_pos,
            {
                insert_pos -= 1;
            }
            // Shift elements down
            let mut j: usize = K - 1;
            while j > insert_pos
                invariant
                    K > 0,
                    insert_pos <= j <= K - 1,
                    result@.len() == K,
                    before.len() == K,
                    forall|q: int| 0 <= q <= j ==> #[trigger] result@[q] == before[q],
                    forall|q: int| j < q < K ==> #[trigger] result@[q] == before[q - 1],
                decreases j,
            {
                result[j] = result[j - 1];
                j -= 1;
            }
            result[insert_pos] = (val, i);
            proof {
                assert(result@ =~= before.take(K - 1).insert(insert_pos as int, (val, i)));
            }
        }
        i += 1;
    }
    result
}

/// The maximum of the values of the first `n` entries, nothing below it counted out.
pub open spec fn max_value_of<A: Arith>(entries: Seq<Entry<A::T>>, n: nat) -> A::T
    decreases n,
{
    if n == 0 {
        s_neg_inf::<A>()
    } else {
        let before = max_value_of::<A>(entries, (n - 1) as nat);
        if s_exceeds::<A>(entries[n - 1].0, before) {
            entries[n - 1].0
        } else {
            before
        }
    }
}

/// The router weights of selected experts: the softmax of their scores.
pub open spec fn topk_softmax_of<A: Arith>(entries: Seq<Entry<A::T>>) -> Seq<A::T> {
    let values = Seq::new(entries.len(), |i: int| entries[i].0);
    normalized::<A>(exponentials::<A>(values, max_value_of::<A>(entries, entries.len())))
}

/// Computes normalized router weights for the top-k selected experts.
/// Takes raw top-k scores and computes softmax over only those active k experts.
pub fn topk_softmax<A: Arith, const K: usize>(
    top_elements: &[(A::T, usize); K],
    out_weights: &mut [A::T; K],
)
    requires
        lawful::<A>(),
    ensures
        final(out_weights)@ == topk_softmax_of::<A>(top_elements@),
{
    let mut max_val = A::neg_inf();
    let mut i: usize = 0;
    while i < K
        invariant
            lawful::<A>(),
            i <= K,
            max_val == max_value_of::<A>(top_elements@, i as nat),
        decreases K - i,
    {
        if A::exceeds(top_elements[i].0, max_val) {
            max_val = top_elements[i].0;
        }
        i += 1;
    }
    let ghost values = Seq::new(K as nat, |i: int| top_elements@[i].0);
    let ghost exps = exponentials::<A>(values, max_val);
    let mut sum = A::lit(0, 0);
    let mut j: usize = 0;
    while j < K
        invariant
            lawful::<A>(),
            j <= K,
            out_weights@.len() == K,
            values == Seq::new(K as nat, |i: int| top_elements@[i].0),
            exps == exponentials::<A>(values, max_val),
            forall|q: int| 0 <= q < j ==> #[trigger] out_weights@[q] == exps[q],
            sum == sum_of::<A>(exps, j as nat),
        decreases K - j,
    {
        let exp_val = A::exp(A::minus(top_elements[j].0, max_val));
        out_weights[j] = exp_val;
        sum = A::plus(sum, exp_val);
        j += 1;
    }
    assert(out_weights@ =~= exps);
    normalize::<A>(out_weights, sum);
}

} // verus!
