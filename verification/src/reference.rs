//! Naive, unoptimized reference implementations of the kernels for numerical parity: selection by
//! full sorting, which the selection kernels agree with, and sums in a wider arithmetic.

use vstd::prelude::*;
use crate::arith::{
    Arith, Wide, lawful, lawful_pair, one, s_exceeds, s_exp, s_larger, s_ln, s_minus, s_narrow,
    s_neg_inf, s_negate, s_over, s_plus, s_times, s_widen, zero,
};
use crate::hebbian::{hebbian_of, hebbian_row};
use crate::sequence::{row_at, write_row};
use crate::softmax::sum_of;
use crate::tensor::{lemma_matrix_row, lemma_row_bounds, lemma_rows_determine, row_of};
use crate::topk::{Entry, no_entry, place, top2_of, topk_of};

verus! {

/// The comparison orders the scores: none exceeds itself, and both exceeding and not exceeding
/// are transitive. Floats are so ordered where none of them is NaN.
pub open spec fn comparable<A: Arith>(scores: Seq<A::T>) -> bool {
    &&& forall|i: int|
        0 <= i < scores.len() ==> !#[trigger] s_exceeds::<A>(scores[i], scores[i])
    &&& forall|i: int, j: int, k: int|
        #![trigger s_exceeds::<A>(scores[i], scores[j]), s_exceeds::<A>(scores[j], scores[k])]
        0 <= i < scores.len() && 0 <= j < scores.len() && 0 <= k < scores.len() && s_exceeds::<A>(
            scores[i],
            scores[j],
        ) && s_exceeds::<A>(scores[j], scores[k]) ==> s_exceeds::<A>(scores[i], scores[k])
    &&& forall|i: int, j: int, k: int|
        #![trigger s_exceeds::<A>(scores[i], scores[j]), s_exceeds::<A>(scores[j], scores[k])]
        0 <= i < scores.len() && 0 <= j < scores.len() && 0 <= k < scores.len() && !s_exceeds::<A>(
            scores[i],
            scores[j],
        ) && !s_exceeds::<A>(scores[j], scores[k]) ==> !s_exceeds::<A>(scores[i], scores[k])
}

/// Every score lies above the value that stands for no score.
pub open spec fn all_finite<A: Arith>(scores: Seq<A::T>) -> bool {
    forall|i: int|
        0 <= i < scores.len() ==> s_exceeds::<A>(#[trigger] scores[i], s_neg_inf::<A>())
}

/// Score `i` ranks before score `j`: it is greater, or it is no less and comes first.
pub open spec fn ahead<A: Arith>(scores: Seq<A::T>, i: int, j: int) -> bool {
    s_exceeds::<A>(scores[i], scores[j]) || (!s_exceeds::<A>(scores[j], scores[i]) && i < j)
}

/// Whether index `i` is among the entries.
pub open spec fn selected<T>(entries: Seq<Entry<T>>, i: int) -> bool {
    exists|a: int| 0 <= a < entries.len() && (#[trigger] entries[a]).1 == i
}

/// The entries are the best of the first `n` scores, best first: greater scores come before
/// lesser ones, equal scores in the order of their indices, and what is left out ranks behind
/// everything selected.
pub open spec fn is_ranking<A: Arith>(
    scores: Seq<A::T>,
    n: int,
    entries: Seq<Entry<A::T>>,
) -> bool {
    &&& forall|a: int|
        0 <= a < entries.len() ==> 0 <= (#[trigger] entries[a]).1 < n && entries[a].0
            == scores[entries[a].1 as int]
    &&& forall|a: int, b: int|
        #![trigger entries[a], entries[b]]
        0 <= a < b < entries.len() ==> ahead::<A>(
            scores,
            entries[a].1 as int,
            entries[b].1 as int,
        )
    &&& forall|i: int, a: int|
        #![trigger selected(entries, i), entries[a]]
        0 <= i < n && !selected(entries, i) && 0 <= a < entries.len() ==> ahead::<A>(
            scores,
            entries[a].1 as int,
            i,
        )
}

/// Every one of the first `n` scores is among the entries.
pub open spec fn is_complete<T>(n: int, entries: Seq<Entry<T>>) -> bool {
    forall|i: int| 0 <= i < n ==> #[trigger] selected(entries, i)
}

proof fn lemma_ahead<A: Arith>(scores: Seq<A::T>, i: int, j: int)
    requires
        comparable::<A>(scores),
        0 <= i < scores.len(),
        0 <= j < scores.len(),
    ensures
        ahead::<A>(scores, i, j) ==> !s_exceeds::<A>(scores[j], scores[i]),
        ahead::<A>(scores, i, j) ==> !ahead::<A>(scores, j, i),
{
    if s_exceeds::<A>(scores[i], scores[j]) && s_exceeds::<A>(scores[j], scores[i]) {
        assert(s_exceeds::<A>(scores[i], scores[i]));
    }
}

proof fn lemma_place<A: Arith>(entries: Seq<Entry<A::T>>, value: A::T, p: int)
    requires
        0 <= p <= entries.len(),
    ensures
        0 <= place::<A>(entries, value, p) <= p,
        forall|a: int|
            place::<A>(entries, value, p) <= a < p ==> s_exceeds::<A>(
                value,
                (#[trigger] entries[a]).0,
            ),
        place::<A>(entries, value, p) > 0 ==> !s_exceeds::<A>(
            value,
            entries[place::<A>(entries, value, p) - 1].0,
        ),
    decreases p,
{
    if p > 0 && s_exceeds::<A>(value, entries[p - 1].0) {
        lemma_place::<A>(entries, value, p - 1);
    }
}

/// The entries are best first, so a value exceeds none of those before its place.
proof fn lemma_before_place<A: Arith>(
    scores: Seq<A::T>,
    n: int,
    entries: Seq<Entry<A::T>>,
    p: int,
    a: int,
)
    requires
        comparable::<A>(scores),
        0 <= n < scores.len(),
        is_ranking::<A>(scores, n, entries),
        0 <= a < p <= entries.len(),
        !s_exceeds::<A>(scores[n], entries[p - 1].0),
    ensures
        !s_exceeds::<A>(scores[n], entries[a].0),
{
    if a < p - 1 {
        let i = entries[a].1 as int;
        let j = entries[p - 1].1 as int;
        lemma_ahead::<A>(scores, i, j);
        assert(!s_exceeds::<A>(scores[n], scores[j]));
        assert(!s_exceeds::<A>(scores[j], scores[i]));
        assert(!s_exceeds::<A>(scores[n], scores[i]));
    }
}

/// The next score goes to its place, where all earlier scores are among the entries or it
/// exceeds the last entry.
proof fn lemma_insert<A: Arith>(scores: Seq<A::T>, n: int, entries: Seq<Entry<A::T>>)
    requires
        comparable::<A>(scores),
        0 <= n < scores.len(),
        scores.len() <= usize::MAX,
        is_ranking::<A>(scores, n, entries),
        is_complete(n, entries) || (entries.len() > 0 && s_exceeds::<A>(
            scores[n],
            entries.last().0,
        )),
    ensures
        ({
            let p = place::<A>(entries, scores[n], entries.len() as int);
            let new = entries.insert(p, (scores[n], n as usize));
            &&& is_ranking::<A>(scores, n + 1, new)
            &&& is_complete(n, entries) ==> is_complete(n + 1, new)
        }),
{
    let value = scores[n];
    let p = place::<A>(entries, value, entries.len() as int);
    lemma_place::<A>(entries, value, entries.len() as int);
    let new = entries.insert(p, (value, n as usize));
    assert forall|a: int| 0 <= a < new.len() && a != p implies #[trigger] new[a] == entries[if a < p {
        a
    } else {
        a - 1
    }] by {}
    assert(new[p] == (value, n as usize));
    assert forall|a: int, b: int|
        #![trigger new[a], new[b]]
        0 <= a < b < new.len() implies ahead::<A>(scores, new[a].1 as int, new[b].1 as int) by {
        if b == p {
            lemma_before_place::<A>(scores, n, entries, p, a);
        } else if a == p {
            let old = entries[b - 1];
            assert(s_exceeds::<A>(value, old.0));
        } else {
            let x = if a < p {
                a
            } else {
                a - 1
            };
            let y = if b < p {
                b
            } else {
                b - 1
            };
            assert(new[a] == entries[x] && new[b] == entries[y]);
        }
    }
    assert forall|i: int| 0 <= i < n && selected(entries, i) implies #[trigger] selected(new, i) by {
        let a = choose|a: int| 0 <= a < entries.len() && (#[trigger] entries[a]).1 == i;
        if a < p {
            assert(new[a].1 == i);
        } else {
            assert(new[a + 1].1 == i);
        }
    }
    assert(selected(new, n)) by {
        assert(new[p].1 == n);
    }
    assert forall|i: int, a: int|
        #![trigger selected(new, i), new[a]]
        0 <= i < n + 1 && !selected(new, i) && 0 <= a < new.len() implies ahead::<A>(
        scores,
        new[a].1 as int,
        i,
    ) by {
        assert(i < n);
        assert(!selected(entries, i));
        if a == p {
            let last = entries.last();
            let l = last.1 as int;
            assert(entries[entries.len() - 1] == last);
            assert(ahead::<A>(scores, l, i));
            lemma_ahead::<A>(scores, l, i);
            assert(!s_exceeds::<A>(scores[i], scores[l]));
            if !s_exceeds::<A>(scores[n], scores[i]) {
                assert(!s_exceeds::<A>(scores[n], scores[l]));
            }
        } else {
            let x = if a < p {
                a
            } else {
                a - 1
            };
            assert(new[a] == entries[x]);
        }
    }
}

/// The best of the best are the best.
proof fn lemma_truncate<A: Arith>(scores: Seq<A::T>, n: int, entries: Seq<Entry<A::T>>, k: int)
    requires
        is_ranking::<A>(scores, n, entries),
        0 <= k <= entries.len(),
    ensures
        is_ranking::<A>(scores, n, entries.take(k)),
{
    let kept = entries.take(k);
    assert forall|i: int, a: int|
        #![trigger selected(kept, i), kept[a]]
        0 <= i < n && !selected(kept, i) && 0 <= a < kept.len() implies ahead::<A>(
        scores,
        kept[a].1 as int,
        i,
    ) by {
        if selected(entries, i) {
            let b = choose|b: int| 0 <= b < entries.len() && (#[trigger] entries[b]).1 == i;
            if b < k {
                assert(kept[b].1 == i);
            }
            assert(entries[a] == kept[a]);
        } else {
            assert(entries[a] == kept[a]);
        }
    }
    assert forall|a: int, b: int|
        #![trigger kept[a], kept[b]]
        0 <= a < b < kept.len() implies ahead::<A>(scores, kept[a].1 as int, kept[b].1 as int) by {
        assert(kept[a] == entries[a] && kept[b] == entries[b]);
    }
}

/// A score that does not exceed the last entry is left out.
proof fn lemma_leave_out<A: Arith>(scores: Seq<A::T>, n: int, entries: Seq<Entry<A::T>>)
    requires
        comparable::<A>(scores),
        0 <= n < scores.len(),
        is_ranking::<A>(scores, n, entries),
        entries.len() > 0,
        !s_exceeds::<A>(scores[n], entries.last().0),
    ensures
        is_ranking::<A>(scores, n + 1, entries),
{
    assert forall|i: int, a: int|
        #![trigger selected(entries, i), entries[a]]
        0 <= i < n + 1 && !selected(entries, i) && 0 <= a < entries.len() implies ahead::<A>(
        scores,
        entries[a].1 as int,
        i,
    ) by {
        if i == n {
            lemma_before_place::<A>(scores, n, entries, entries.len() as int, a);
        }
    }
}

/// A ranking is unique: two rankings of the same length are the same.
pub proof fn rankings_are_unique<A: Arith>(
    scores: Seq<A::T>,
    a: Seq<Entry<A::T>>,
    b: Seq<Entry<A::T>>,
)
    requires
        comparable::<A>(scores),
        is_ranking::<A>(scores, scores.len() as int, a),
        is_ranking::<A>(scores, scores.len() as int, b),
        a.len() == b.len(),
    ensures
        a == b,
{
    lemma_rankings_agree::<A>(scores, a, b, a.len() as int);
    assert(a =~= b);
}

proof fn lemma_rankings_agree<A: Arith>(
    scores: Seq<A::T>,
    a: Seq<Entry<A::T>>,
    b: Seq<Entry<A::T>>,
    n: int,
)
    requires
        comparable::<A>(scores),
        is_ranking::<A>(scores, scores.len() as int, a),
        is_ranking::<A>(scores, scores.len() as int, b),
        a.len() == b.len(),
        0 <= n <= a.len(),
    ensures
        forall|i: int| 0 <= i < n ==> a[i] == b[i],
    decreases n,
{
    if n > 0 {
        lemma_rankings_agree::<A>(scores, a, b, n - 1);
        let i = a[n - 1].1 as int;
        let j = b[n - 1].1 as int;
        if i != j {
            lemma_first_behind::<A>(scores, a, b, n - 1);
            lemma_first_behind::<A>(scores, b, a, n - 1);
            lemma_ahead::<A>(scores, i, j);
        }
    }
}

/// Where two rankings agree before `n` and differ there, the entry of one ranks behind that of
/// the other.
proof fn lemma_first_behind<A: Arith>(
    scores: Seq<A::T>,
    a: Seq<Entry<A::T>>,
    b: Seq<Entry<A::T>>,
    n: int,
)
    requires
        comparable::<A>(scores),
        is_ranking::<A>(scores, scores.len() as int, a),
        is_ranking::<A>(scores, scores.len() as int, b),
        0 <= n < a.len(),
        n < b.len(),
        forall|i: int| 0 <= i < n ==> a[i] == b[i],
        a[n].1 != b[n].1,
    ensures
        ahead::<A>(scores, b[n].1 as int, a[n].1 as int),
{
    let i = a[n].1 as int;
    if selected(b, i) {
        let c = choose|c: int| 0 <= c < b.len() && (#[trigger] b[c]).1 == i;
        if c < n {
            assert(a[c].1 == i);
            assert(ahead::<A>(scores, a[c].1 as int, a[n].1 as int));
            lemma_ahead::<A>(scores, i, i);
        }
        assert(ahead::<A>(scores, b[n].1 as int, b[c].1 as int));
    } else {
        assert(b[n].1 < scores.len());
    }
}

/// The place of a value depends on the entries in front alone.
proof fn lemma_place_in_prefix<A: Arith>(
    a: Seq<Entry<A::T>>,
    b: Seq<Entry<A::T>>,
    value: A::T,
    p: int,
)
    requires
        0 <= p <= a.len(),
        p <= b.len(),
        forall|i: int| 0 <= i < p ==> a[i] == b[i],
    ensures
        place::<A>(a, value, p) == place::<A>(b, value, p),
    decreases p,
{
    if p > 0 && s_exceeds::<A>(value, a[p - 1].0) {
        lemma_place_in_prefix::<A>(a, b, value, p - 1);
    }
}

/// A value passes all the entries at the end that it exceeds.
proof fn lemma_place_past<A: Arith>(entries: Seq<Entry<A::T>>, value: A::T, from: int, to: int)
    requires
        0 <= from <= to <= entries.len(),
        forall|a: int| from <= a < to ==> s_exceeds::<A>(value, (#[trigger] entries[a]).0),
    ensures
        place::<A>(entries, value, to) == place::<A>(entries, value, from),
    decreases to - from,
{
    if from < to {
        lemma_place_past::<A>(entries, value, from, to - 1);
    }
}

/// What is known of the `k` best entries after `n` scores: as many of them as there are scores
/// rank those scores, and the rest stand for no score.
spec fn is_topk_state<A: Arith>(
    scores: Seq<A::T>,
    k: nat,
    n: nat,
    state: Seq<Entry<A::T>>,
) -> bool {
    let m = if n < k {
        n as int
    } else {
        k as int
    };
    &&& state.len() == k
    &&& is_ranking::<A>(scores, n as int, state.take(m))
    &&& n < k ==> is_complete(n as int, state.take(m))
    &&& forall|a: int| m <= a < k ==> #[trigger] state[a] == no_entry::<A>()
}

/// While there is room, the next score joins the entries.
proof fn lemma_topk_fill<A: Arith>(
    scores: Seq<A::T>,
    k: nat,
    t: nat,
    before: Seq<Entry<A::T>>,
)
    requires
        comparable::<A>(scores),
        all_finite::<A>(scores),
        t < scores.len() <= usize::MAX,
        t < k,
        is_topk_state::<A>(scores, k, t, before),
    ensures
        s_exceeds::<A>(scores[t as int], before[k - 1].0),
        is_topk_state::<A>(
            scores,
            k,
            t + 1,
            before.take(k - 1).insert(
                place::<A>(before, scores[t as int], k - 1),
                (scores[t as int], t as usize),
            ),
        ),
{
    let value = scores[t as int];
    let entry = (value, t as usize);
    let p = place::<A>(before, value, k - 1);
    let after = before.take(k - 1).insert(p, entry);
    let old = before.take(t as int);
    assert(s_exceeds::<A>(value, s_neg_inf::<A>()));
    assert(before[k - 1] == no_entry::<A>());
    assert forall|a: int| t <= a < k - 1 implies s_exceeds::<A>(
        value,
        (#[trigger] before[a]).0,
    ) by {}
    lemma_place_past::<A>(before, value, t as int, k - 1);
    lemma_place_in_prefix::<A>(before, old, value, t as int);
    lemma_place::<A>(old, value, t as int);
    lemma_insert::<A>(scores, t as int, old);
    assert(after.take(t + 1int) =~= old.insert(p, entry));
    assert forall|a: int| t + 1 <= a < k implies #[trigger] after[a] == no_entry::<A>() by {
        assert(after[a] == before[a - 1]);
    }
}

/// Where all entries are taken, the next score replaces the last one or is left out.
proof fn lemma_topk_replace<A: Arith>(
    scores: Seq<A::T>,
    k: nat,
    t: nat,
    before: Seq<Entry<A::T>>,
)
    requires
        comparable::<A>(scores),
        t < scores.len() <= usize::MAX,
        0 < k <= t,
        is_topk_state::<A>(scores, k, t, before),
    ensures
        is_topk_state::<A>(
            scores,
            k,
            t + 1,
            if s_exceeds::<A>(scores[t as int], before[k - 1].0) {
                before.take(k - 1).insert(
                    place::<A>(before, scores[t as int], k - 1),
                    (scores[t as int], t as usize),
                )
            } else {
                before
            },
        ),
{
    let value = scores[t as int];
    let entry = (value, t as usize);
    let p = place::<A>(before, value, k - 1);
    lemma_place::<A>(before, value, k - 1);
    assert(before.take(k as int) =~= before);
    if s_exceeds::<A>(value, before[k - 1].0) {
        lemma_insert::<A>(scores, t as int, before);
        let longer = before.insert(p, entry);
        lemma_truncate::<A>(scores, t + 1int, longer, k as int);
        let after = before.take(k - 1).insert(p, entry);
        assert(after.take(k as int) =~= longer.take(k as int));
    } else {
        lemma_leave_out::<A>(scores, t as int, before);
    }
}

proof fn lemma_topk_state<A: Arith>(scores: Seq<A::T>, k: nat, n: nat)
    requires
        comparable::<A>(scores),
        all_finite::<A>(scores),
        scores.len() <= usize::MAX,
        0 < k,
        n <= scores.len(),
    ensures
        is_topk_state::<A>(scores, k, n, topk_of::<A>(scores, k, n)),
    decreases n,
{
    if n == 0 {
        assert(topk_of::<A>(scores, k, n).take(0) =~= Seq::empty());
    } else {
        let t = (n - 1) as nat;
        lemma_topk_state::<A>(scores, k, t);
        if t < k {
            lemma_topk_fill::<A>(scores, k, t, topk_of::<A>(scores, k, t));
        } else {
            lemma_topk_replace::<A>(scores, k, t, topk_of::<A>(scores, k, t));
        }
    }
}

/// Selecting the top k agrees with sorting everything: the entries are the `k` best scores,
/// best first, equal scores in the order of their indices.
pub proof fn topk_is_the_ranking<A: Arith>(scores: Seq<A::T>, k: nat)
    requires
        comparable::<A>(scores),
        all_finite::<A>(scores),
        scores.len() <= usize::MAX,
        0 < k <= scores.len(),
    ensures
        topk_of::<A>(scores, k, scores.len()).len() == k,
        is_ranking::<A>(scores, scores.len() as int, topk_of::<A>(scores, k, scores.len())),
{
    lemma_topk_state::<A>(scores, k, scores.len());
    let state = topk_of::<A>(scores, k, scores.len());
    assert(state.take(k as int) =~= state);
}

proof fn lemma_top2_is_topk<A: Arith>(scores: Seq<A::T>, n: nat)
    requires
        comparable::<A>(scores),
        all_finite::<A>(scores),
        scores.len() <= usize::MAX,
        n <= scores.len(),
    ensures
        topk_of::<A>(scores, 2, n) == seq![
            top2_of::<A>(scores, n).0,
            top2_of::<A>(scores, n).1,
        ],
    decreases n,
{
    if n == 0 {
        assert(topk_of::<A>(scores, 2, 0) =~= seq![no_entry::<A>(), no_entry::<A>()]);
    } else {
        let t = n - 1;
        lemma_top2_is_topk::<A>(scores, t as nat);
        lemma_topk_state::<A>(scores, 2, t as nat);
        let before = topk_of::<A>(scores, 2, t as nat);
        let value = scores[t];
        assert(s_exceeds::<A>(value, s_neg_inf::<A>()));
        if s_exceeds::<A>(value, before[0].0) {
            if t >= 2 {
                assert(before.take(2) =~= before);
                let (i, j) = (before[0].1 as int, before[1].1 as int);
                assert(ahead::<A>(scores, i, j));
                lemma_ahead::<A>(scores, i, j);
                assert(!s_exceeds::<A>(scores[j], scores[i]));
                if !s_exceeds::<A>(scores[t], scores[j]) {
                    assert(!s_exceeds::<A>(scores[t], scores[i]));
                    assert(before[0].0 == scores[i]);
                }
                assert(before[1].0 == scores[j]);
            }
            assert(s_exceeds::<A>(value, before[1].0));
        }
        reveal_with_fuel(place, 3);
        assert(topk_of::<A>(scores, 2, n) =~= seq![
            top2_of::<A>(scores, n).0,
            top2_of::<A>(scores, n).1,
        ]);
    }
}

/// Selecting the top two agrees with sorting everything.
pub proof fn top2_is_the_ranking<A: Arith>(scores: Seq<A::T>)
    requires
        comparable::<A>(scores),
        all_finite::<A>(scores),
        2 <= scores.len() <= usize::MAX,
    ensures
        is_ranking::<A>(
            scores,
            scores.len() as int,
            seq![
                top2_of::<A>(scores, scores.len()).0,
                top2_of::<A>(scores, scores.len()).1,
            ],
        ),
{
    topk_is_the_ranking::<A>(scores, 2);
    lemma_top2_is_topk::<A>(scores, scores.len());
}

/// Naive reference top-k selection using full sorting.
pub fn ref_topk<A: Arith>(scores: &[A::T], k: usize) -> (top: Vec<(A::T, usize)>)
    requires
        lawful::<A>(),
        comparable::<A>(scores@),
    ensures
        is_ranking::<A>(scores@, scores@.len() as int, top@),
        top@.len() == if k < scores@.len() {
            k as int
        } else {
            scores@.len() as int
        },
{
    let mut indexed: Vec<(A::T, usize)> = Vec::with_capacity(scores.len());
    let mut i: usize = 0;
    while i < scores.len()
        invariant
            lawful::<A>(),
            comparable::<A>(scores@),
            i <= scores@.len(),
            indexed@.len() == i,
            is_ranking::<A>(scores@, i as int, indexed@),
            is_complete(i as int, indexed@),
        decreases scores@.len() - i,
    {
        let value = scores[i];
        let ghost before = indexed@;
        let mut p: usize = i;
        while p > 0 && A::exceeds(value, indexed[p - 1].0)
            invariant
                lawful::<A>(),
                p <= i,
                indexed@.len() == i,
                place::<A>(indexed@, value, i as int) == place::<A>(
                    indexed@,
                    value,
                    p as int,
                ),
            decreases p,
        {
            p -= 1;
        }
        proof {
            assert(scores.len() == scores@.len());
            lemma_insert::<A>(scores@, i as int, before);
        }
        indexed.insert(p, (value, i));
        i += 1;
    }
    if k < indexed.len() {
        proof {
            lemma_truncate::<A>(scores@, i as int, indexed@, k as int);
        }
        indexed.truncate(k);
    }
    indexed
}

/// The products of the first `n` elements of two vectors, computed and summed up in the wider
/// arithmetic.
pub open spec fn wide_products<A: Arith, B: Wide<A>>(a: Seq<A::T>, b: Seq<A::T>, n: nat) -> B::T
    decreases n,
{
    if n == 0 {
        zero::<B>()
    } else {
        s_plus::<B>(
            wide_products::<A, B>(a, b, (n - 1) as nat),
            s_times::<B>(s_widen::<A, B>(a[n - 1]), s_widen::<A, B>(b[n - 1])),
        )
    }
}

/// Column `c` of a matrix that lies row by row.
pub open spec fn column_of<T>(w: Seq<T>, rows: nat, cols: nat, c: int) -> Seq<T> {
    Seq::new(rows, |r: int| row_of(w, cols, r)[c])
}

/// Naive reference matrix-vector multiplication: y = W * x
pub fn ref_matvec<A: Arith, B: Wide<A>>(
    w_data: &[A::T],
    rows: usize,
    cols: usize,
    x: &[A::T],
) -> (y: Vec<A::T>)
    requires
        lawful_pair::<A, B>(),
        w_data@.len() == rows * cols,
        x@.len() == cols,
    ensures
        y@ == Seq::new(
            rows as nat,
            |r: int|
                s_narrow::<A, B>(
                    wide_products::<A, B>(row_of(w_data@, cols as nat, r), x@, cols as nat),
                ),
        ),
{
    let ghost want = Seq::new(
        rows as nat,
        |r: int|
            s_narrow::<A, B>(
                wide_products::<A, B>(row_of(w_data@, cols as nat, r), x@, cols as nat),
            ),
    );
    let mut y: Vec<A::T> = Vec::with_capacity(rows);
    let mut r: usize = 0;
    while r < rows
        invariant
            lawful_pair::<A, B>(),
            r <= rows,
            w_data@.len() == rows * cols,
            x@.len() == cols,
            want == Seq::new(
                rows as nat,
                |r: int|
                    s_narrow::<A, B>(
                        wide_products::<A, B>(row_of(w_data@, cols as nat, r), x@, cols as nat),
                    ),
            ),
            y@ == want.take(r as int),
        decreases rows - r,
    {
        proof {
            lemma_row_bounds(rows as nat, cols as nat, r as int);
        }
        let row = row_at(w_data, cols, r);
        let mut sum = B::lit(0, 0);
        let mut c: usize = 0;
        while c < cols
            invariant
                lawful_pair::<A, B>(),
                c <= cols,
                row@.len() == cols,
                x@.len() == cols,
                sum == wide_products::<A, B>(row@, x@, c as nat),
            decreases cols - c,
        {
            sum = B::plus(sum, B::times(B::widen(row[c]), B::widen(x[c])));
            c += 1;
        }
        y.push(B::narrow(sum));
        r += 1;
        assert(y@ =~= want.take(r as int));
    }
    assert(want.take(r as int) =~= want);
    y
}

/// Naive reference transposed matrix-vector multiplication: y = W^T * x
pub fn ref_matvec_transposed<A: Arith, B: Wide<A>>(
    w_data: &[A::T],
    rows: usize,
    cols: usize,
    x: &[A::T],
) -> (y: Vec<A::T>)
    requires
        lawful_pair::<A, B>(),
        w_data@.len() == rows * cols,
        x@.len() == rows,
    ensures
        y@ == Seq::new(
            cols as nat,
            |c: int|
                s_narrow::<A, B>(
                    wide_products::<A, B>(
                        column_of(w_data@, rows as nat, cols as nat, c),
                        x@,
                        rows as nat,
                    ),
                ),
        ),
{
    let ghost want = Seq::new(
        cols as nat,
        |c: int|
            s_narrow::<A, B>(
                wide_products::<A, B>(
                    column_of(w_data@, rows as nat, cols as nat, c),
                    x@,
                    rows as nat,
                ),
            ),
    );
    let mut y: Vec<A::T> = Vec::with_capacity(cols);
    let mut c: usize = 0;
    while c < cols
        invariant
            lawful_pair::<A, B>(),
            c <= cols,
            w_data@.len() == rows * cols,
            x@.len() == rows,
            want == Seq::new(
                cols as nat,
                |c: int|
                    s_narrow::<A, B>(
                        wide_products::<A, B>(
                            column_of(w_data@, rows as nat, cols as nat, c),
                            x@,
                            rows as nat,
                        ),
                    ),
            ),
            y@ == want.take(c as int),
        decreases cols - c,
    {
        let ghost column = column_of(w_data@, rows as nat, cols as nat, c as int);
        let mut sum = B::lit(0, 0);
        let mut r: usize = 0;
        while r < rows
            invariant
                lawful_pair::<A, B>(),
                r <= rows,
                c < cols,
                w_data@.len() == rows * cols,
                x@.len() == rows,
                column == column_of(w_data@, rows as nat, cols as nat, c as int),
                sum == wide_products::<A, B>(column, x@, r as nat),
            decreases rows - r,
        {
            proof {
                lemma_row_bounds(rows as nat, cols as nat, r as int);
            }
            let row = row_at(w_data, cols, r);
            sum = B::plus(sum, B::times(B::widen(row[c]), B::widen(x[r])));
            r += 1;
        }
        y.push(B::narrow(sum));
        c += 1;
        assert(y@ =~= want.take(c as int));
    }
    assert(want.take(c as int) =~= want);
    y
}

/// The largest of the first `n` values, from the lowest value on.
pub open spec fn largest_of<A: Arith>(values: Seq<A::T>, n: nat) -> A::T
    decreases n,
{
    if n == 0 {
        s_neg_inf::<A>()
    } else {
        s_larger::<A>(largest_of::<A>(values, (n - 1) as nat), values[n - 1])
    }
}

/// The exponentials of the differences to the largest value, in the wider arithmetic.
pub open spec fn wide_exponentials<A: Arith, B: Wide<A>>(logits: Seq<A::T>) -> Seq<B::T> {
    Seq::new(
        logits.len(),
        |i: int|
            s_exp::<B>(
                s_widen::<A, B>(s_minus::<A>(logits[i], largest_of::<A>(logits, logits.len()))),
            ),
    )
}

/// Softmax in the wider arithmetic.
pub open spec fn ref_softmax_of<A: Arith, B: Wide<A>>(logits: Seq<A::T>) -> Seq<A::T> {
    let exps = wide_exponentials::<A, B>(logits);
    Seq::new(
        logits.len(),
        |i: int| s_narrow::<A, B>(s_over::<B>(exps[i], sum_of::<B>(exps, exps.len()))),
    )
}

/// Naive reference softmax.
pub fn ref_softmax<A: Arith, B: Wide<A>>(logits: &[A::T]) -> (probs: Vec<A::T>)
    requires
        lawful_pair::<A, B>(),
    ensures
        probs@ == ref_softmax_of::<A, B>(logits@),
{
    let n: usize = logits.len();
    let ghost exps = wide_exponentials::<A, B>(logits@);
    let ghost want = ref_softmax_of::<A, B>(logits@);
    let mut max_val = A::neg_inf();
    let mut i: usize = 0;
    while i < n
        invariant
            lawful_pair::<A, B>(),
            i <= n,
            n == logits@.len(),
            max_val == largest_of::<A>(logits@, i as nat),
        decreases n - i,
    {
        max_val = A::larger(max_val, logits[i]);
        i += 1;
    }
    let mut exp_vals: Vec<B::T> = Vec::with_capacity(n);
    let mut sum = B::lit(0, 0);
    let mut i: usize = 0;
    while i < n
        invariant
            lawful_pair::<A, B>(),
            i <= n,
            n == logits@.len(),
            max_val == largest_of::<A>(logits@, n as nat),
            exps == wide_exponentials::<A, B>(logits@),
            exp_vals@ == exps.take(i as int),
            sum == sum_of::<B>(exps, i as nat),
        decreases n - i,
    {
        let e = B::exp(B::widen(A::minus(logits[i], max_val)));
        exp_vals.push(e);
        sum = B::plus(sum, e);
        i += 1;
        assert(exp_vals@ =~= exps.take(i as int));
    }
    assert(exps.take(i as int) =~= exps);
    let mut probs: Vec<A::T> = Vec::with_capacity(n);
    let mut i: usize = 0;
    while i < n
        invariant
            lawful_pair::<A, B>(),
            i <= n,
            n == logits@.len(),
            exps == wide_exponentials::<A, B>(logits@),
            exp_vals@ == exps,
            sum == sum_of::<B>(exps, n as nat),
            want == ref_softmax_of::<A, B>(logits@),
            probs@ == want.take(i as int),
        decreases n - i,
    {
        probs.push(B::narrow(B::over(exp_vals[i], sum)));
        i += 1;
        assert(probs@ =~= want.take(i as int));
    }
    assert(want.take(i as int) =~= want);
    probs
}

/// Naive reference Hebbian update: M = lambda * M + eta * (h ⊗ h^T). It comes to the same as the
/// fused kernel.
pub fn ref_hebbian_update<A: Arith>(
    m_data: &mut [A::T],
    dim: usize,
    h: &[A::T],
    decay: A::T,
    lr: A::T,
)
    requires
        lawful::<A>(),
        h@.len() == dim,
        old(m_data)@.len() == dim * dim,
    ensures
        final(m_data)@ == hebbian_of::<A>(old(m_data)@, h@, decay, lr),
        final(m_data)@.len() == dim * dim,
{
    let ghost before = m_data@;
    let ghost n = dim as nat;
    let mut i: usize = 0;
    while i < dim
        invariant
            lawful::<A>(),
            i <= dim,
            n == dim,
            h@.len() == dim,
            before.len() == dim * dim,
            m_data@.len() == dim * dim,
            forall|q: int|
                0 <= q < i ==> #[trigger] row_of(m_data@, n, q) == hebbian_row::<A>(
                    before,
                    h@,
                    decay,
                    lr,
                    q,
                ),
            forall|q: int|
                i <= q < dim ==> #[trigger] row_of(m_data@, n, q) == row_of(before, n, q),
        decreases dim - i,
    {
        let ghost want = hebbian_row::<A>(before, h@, decay, lr, i as int);
        proof {
            lemma_row_bounds(n, n, i as int);
            assert(row_of(m_data@, n, i as int) == row_of(before, n, i as int));
        }
        let mut row: Vec<A::T> = Vec::with_capacity(dim);
        let mut j: usize = 0;
        while j < dim
            invariant
                lawful::<A>(),
                j <= dim,
                i < dim,
                n == dim,
                h@.len() == dim,
                (i + 1) * dim <= m_data@.len(),
                row_of(m_data@, n, i as int) == row_of(before, n, i as int),
                want == hebbian_row::<A>(before, h@, decay, lr, i as int),
                row@ == want.take(j as int),
            decreases dim - j,
        {
            let old_row = row_at(m_data, dim, i);
            row.push(
                A::plus(A::times(decay, old_row[j]), A::times(A::times(lr, h[i]), h[j])),
            );
            j += 1;
            assert(row@ =~= want.take(j as int));
        }
        assert(want.take(j as int) =~= want);
        write_row(m_data, Ghost(n), dim, i, row.as_slice());
        i += 1;
    }
    proof {
        let after = hebbian_of::<A>(before, h@, decay, lr);
        let f = |r: int, c: int| hebbian_row::<A>(before, h@, decay, lr, r)[c];
        assert forall|q: int| 0 <= q < dim implies #[trigger] row_of(m_data@, n, q) == row_of(
            after,
            n,
            q,
        ) by {
            lemma_matrix_row(n, n, f, q);
            assert(Seq::new(n, |c: int| f(q, c)) =~= hebbian_row::<A>(before, h@, decay, lr, q));
        }
        lemma_rows_determine(n, n, m_data@, after);
    }
}

/// Naive reference cross entropy loss: -ln of the target's probability, and its gradient.
pub fn ref_cross_entropy<A: Arith, B: Wide<A>>(logits: &[A::T], target: usize) -> (r: (
    A::T,
    Vec<A::T>,
))
    requires
        lawful_pair::<A, B>(),
        target < logits@.len(),
    ensures
        ({
            let probs = ref_softmax_of::<A, B>(logits@);
            &&& r.0 == s_negate::<A>(s_ln::<A>(probs[target as int]))
            &&& r.1@ == probs.update(
                target as int,
                s_minus::<A>(probs[target as int], one::<A>()),
            )
        }),
{
    let mut grad = ref_softmax::<A, B>(logits);
    let p = grad[target];
    grad[target] = A::minus(p, A::lit(1, 0));
    (A::negate(A::ln(p)), grad)
}

} // verus!
