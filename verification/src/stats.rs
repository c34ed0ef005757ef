//! Sorting and percentiles of measurements.

use vstd::prelude::*;
use crate::arith::{Arith, lawful, s_count, s_exceeds, s_lit, s_over, s_times, s_whole, zero};
use crate::reference::comparable;
use crate::softmax::sum_of;

verus! {

/// No value exceeds a later one.
pub open spec fn is_ascending<A: Arith>(values: Seq<A::T>) -> bool {
    forall|i: int, j: int|
        0 <= i < j < values.len() ==> !#[trigger] s_exceeds::<A>(values[i], values[j])
}

/// The same values, in ascending order if the comparison orders them.
pub open spec fn is_sorting<A: Arith>(values: Seq<A::T>, sorted: Seq<A::T>) -> bool {
    &&& sorted.len() == values.len()
    &&& sorted.to_multiset() == values.to_multiset()
    &&& comparable::<A>(values) ==> is_ascending::<A>(sorted)
}

/// The comparison orders any three of the values.
proof fn lemma_comparable<A: Arith>(values: Seq<A::T>, a: A::T, b: A::T, c: A::T)
    requires
        comparable::<A>(values),
        values.contains(a),
        values.contains(b),
        values.contains(c),
    ensures
        s_exceeds::<A>(a, b) ==> !s_exceeds::<A>(b, a),
        !s_exceeds::<A>(a, b) && !s_exceeds::<A>(b, c) ==> !s_exceeds::<A>(a, c),
{
    let i = choose|i: int| 0 <= i < values.len() && values[i] == a;
    let j = choose|j: int| 0 <= j < values.len() && values[j] == b;
    let k = choose|k: int| 0 <= k < values.len() && values[k] == c;
    assert(!s_exceeds::<A>(values[i], values[i]));
    if s_exceeds::<A>(a, b) && s_exceeds::<A>(b, a) {
        assert(s_exceeds::<A>(values[i], values[j]) && s_exceeds::<A>(values[j], values[i]));
    }
    if !s_exceeds::<A>(a, b) && !s_exceeds::<A>(b, c) {
        assert(!s_exceeds::<A>(values[i], values[j]) && !s_exceeds::<A>(values[j], values[k]));
    }
}

/// A value put behind all that do not exceed it, and before the others, keeps the order.
proof fn lemma_insert_keeps_order<A: Arith>(
    values: Seq<A::T>,
    sorted: Seq<A::T>,
    p: int,
    x: A::T,
)
    requires
        comparable::<A>(values),
        is_ascending::<A>(sorted),
        forall|k: int| 0 <= k < sorted.len() ==> values.contains(#[trigger] sorted[k]),
        values.contains(x),
        0 <= p <= sorted.len(),
        p > 0 ==> !s_exceeds::<A>(sorted[p - 1], x),
        forall|k: int| p <= k < sorted.len() ==> s_exceeds::<A>(#[trigger] sorted[k], x),
    ensures
        is_ascending::<A>(sorted.insert(p, x)),
{
    let more = sorted.insert(p, x);
    assert forall|i: int, j: int| 0 <= i < j < more.len() implies !#[trigger] s_exceeds::<A>(
        more[i],
        more[j],
    ) by {
        if i < p && j == p {
            assert(more[i] == sorted[i] && more[j] == x);
            assert(values.contains(sorted[i]) && values.contains(sorted[p - 1]));
            if i < p - 1 {
                assert(!s_exceeds::<A>(sorted[i], sorted[p - 1]));
                lemma_comparable::<A>(values, sorted[i], sorted[p - 1], x);
            }
        } else if i == p {
            assert(more[i] == x && more[j] == sorted[j - 1]);
            assert(values.contains(sorted[j - 1]));
            lemma_comparable::<A>(values, sorted[j - 1], x, x);
        } else {
            let a = if i < p { i } else { i - 1 };
            let b = if j < p { j } else { j - 1 };
            assert(more[i] == sorted[a] && more[j] == sorted[b]);
            assert(!s_exceeds::<A>(sorted[a], sorted[b]));
        }
    }
}

/// The values in ascending order; equal ones keep their order.
pub fn sorted_ascending<A: Arith>(values: &[A::T]) -> (sorted: Vec<A::T>)
    requires
        lawful::<A>(),
    ensures
        is_sorting::<A>(values@, sorted@),
{
    let mut sorted: Vec<A::T> = Vec::with_capacity(values.len());
    let mut i: usize = 0;
    assert(values@.take(0) =~= sorted@);
    while i < values.len()
        invariant
            lawful::<A>(),
            i <= values@.len(),
            sorted@.len() == i,
            sorted@.to_multiset() == values@.take(i as int).to_multiset(),
            comparable::<A>(values@) ==> is_ascending::<A>(sorted@),
        decreases values@.len() - i,
    {
        let x = values[i];
        let mut p: usize = sorted.len();
        while p > 0 && A::exceeds(sorted[p - 1], x)
            invariant
                lawful::<A>(),
                p <= sorted@.len(),
                forall|k: int| p <= k < sorted@.len() ==> s_exceeds::<A>(#[trigger] sorted@[k], x),
            decreases p,
        {
            p -= 1;
        }
        proof {
            assert forall|k: int| 0 <= k < sorted@.len() implies values@.contains(
                #[trigger] sorted@[k],
            ) by {
                assert(sorted@.contains(sorted@[k]));
                vstd::seq_lib::to_multiset_contains(sorted@, sorted@[k]);
                vstd::seq_lib::to_multiset_contains(values@.take(i as int), sorted@[k]);
                assert(values@.take(i as int).contains(sorted@[k]));
                let q = choose|q: int|
                    0 <= q < values@.take(i as int).len() && values@.take(i as int)[q]
                        == sorted@[k];
                assert(values@[q] == sorted@[k]);
            }
            assert(values@.contains(values@[i as int]));
            if comparable::<A>(values@) {
                lemma_insert_keeps_order::<A>(values@, sorted@, p as int, x);
            }
            assert(values@.take(i + 1) =~= values@.take(i as int).push(x));
            vstd::seq_lib::to_multiset_insert(sorted@, p as int, x);
            vstd::seq_lib::to_multiset_build(values@.take(i as int), x);
        }
        sorted.insert(p, x);
        i += 1;
    }
    assert(values@.take(i as int) =~= values@);
    sorted
}

/// The index of a share of `n` sorted values, and never behind the last.
pub open spec fn share_index<A: Arith>(n: nat, digits: u64, decimals: u32) -> int {
    let i = s_whole::<A>(s_times::<A>(s_count::<A>(n as usize), s_lit::<A>(digits, decimals)));
    if i < n {
        i as int
    } else {
        n - 1
    }
}

/// The index of a share of `n` sorted values, and never behind the last.
pub fn index_at_share<A: Arith>(n: usize, digits: u64, decimals: u32) -> (i: usize)
    requires
        lawful::<A>(),
        n > 0,
    ensures
        i == share_index::<A>(n as nat, digits, decimals),
        i < n,
{
    let i: usize = A::whole(A::times(A::count(n), A::lit(digits, decimals)));
    if i < n {
        i
    } else {
        n - 1
    }
}

/// The index of `percent` hundredths of `n` sorted values, and never behind the last.
pub open spec fn percent_index(n: nat, percent: nat) -> int {
    let i = n * percent / 100;
    if i < n {
        i as int
    } else {
        n - 1
    }
}

/// The index of `percent` hundredths of `n` sorted values, and never behind the last.
pub fn index_at_percent(n: usize, percent: usize) -> (i: usize)
    requires
        n > 0,
        n * percent <= usize::MAX,
    ensures
        i == percent_index(n as nat, percent as nat),
        i < n,
{
    let i: usize = n * percent / 100;
    if i < n {
        i
    } else {
        n - 1
    }
}

/// What is reported of some measurements.
pub struct Summary<A: Arith> {
    pub p50: A::T,
    pub p95: A::T,
    pub p99: A::T,
    /// All measurements, summed up in ascending order.
    pub total: A::T,
}

/// The summary of some measurements: the median, the 95th and the 99th percentile, and the sum.
pub open spec fn is_summary<A: Arith>(values: Seq<A::T>, summary: Summary<A>) -> bool {
    exists|sorted: Seq<A::T>| #[trigger]
        is_sorting::<A>(values, sorted) && summary.p50 == sorted[values.len() as int / 2]
            && summary.p95 == sorted[percent_index(values.len(), 95)] && summary.p99
            == sorted[percent_index(values.len(), 99)] && summary.total == sum_of::<A>(
            sorted,
            sorted.len(),
        )
}

/// Summarize some measurements.
pub fn summary_of<A: Arith>(values: &[A::T]) -> (summary: Summary<A>)
    requires
        lawful::<A>(),
        values@.len() > 0,
        values@.len() * 99 <= usize::MAX,
    ensures
        is_summary::<A>(values@, summary),
{
    let sorted = sorted_ascending::<A>(values);
    let n: usize = sorted.len();
    assert(is_sorting::<A>(values@, sorted@));
    Summary {
        p50: sorted[n / 2],
        p95: sorted[index_at_percent(n, 95)],
        p99: sorted[index_at_percent(n, 99)],
        total: add_up::<A>(sorted.as_slice()),
    }
}

/// The sum of some values.
pub fn add_up<A: Arith>(values: &[A::T]) -> (sum: A::T)
    requires
        lawful::<A>(),
    ensures
        sum == sum_of::<A>(values@, values@.len()),
{
    let mut sum = A::lit(0, 0);
    let mut i: usize = 0;
    while i < values.len()
        invariant
            lawful::<A>(),
            i <= values@.len(),
            sum == sum_of::<A>(values@, i as nat),
        decreases values@.len() - i,
    {
        sum = A::plus(sum, values[i]);
        i += 1;
    }
    sum
}

/// The numbers are in ascending order.
pub open spec fn ascends(numbers: Seq<u32>) -> bool {
    forall|i: int, j: int| 0 <= i < j < numbers.len() ==> numbers[i] <= numbers[j]
}

/// `slice::sort_unstable` of numbers: the same numbers in ascending order.
#[verifier::external_body]
fn sort_numbers(numbers: &mut Vec<u32>)
    ensures
        final(numbers)@.len() == old(numbers)@.len(),
        final(numbers)@.to_multiset() == old(numbers)@.to_multiset(),
        ascends(final(numbers)@),
{
    numbers.sort_unstable();
}

/// Latencies in nanoseconds, as many as there is room for.
pub struct LatencyHistogram {
    pub samples: Vec<u32>,
    pub capacity: usize,
}

/// Nanoseconds as microseconds.
pub open spec fn micros<A: Arith>(ns: u32) -> A::T {
    s_over::<A>(s_count::<A>(ns as usize), s_lit::<A>(1000, 0))
}

impl LatencyHistogram {
    pub fn new(capacity: usize) -> (hist: Self)
        ensures
            hist.samples@ == Seq::<u32>::empty(),
            hist.capacity == capacity,
    {
        Self { samples: Vec::with_capacity(capacity), capacity }
    }

    /// Keep a latency if there is room left.
    pub fn record(&mut self, ns: u32)
        ensures
            final(self).samples@ == if old(self).samples@.len() < old(self).capacity {
                old(self).samples@.push(ns)
            } else {
                old(self).samples@
            },
            final(self).capacity == old(self).capacity,
            old(self).samples@.len() <= old(self).capacity ==> final(self).samples@.len()
                <= final(self).capacity,
    {
        if self.samples.len() < self.capacity {
            self.samples.push(ns);
        }
    }

    /// Take over all latencies of another histogram, room or not.
    pub fn absorb(&mut self, other: &LatencyHistogram)
        ensures
            final(self).samples@ == old(self).samples@ + other.samples@,
            final(self).capacity == old(self).capacity,
    {
        self.samples.extend_from_slice(other.samples.as_slice());
        assert(self.samples@ =~= old(self).samples@ + other.samples@);
    }

    /// The median, 95th, 99th and 99.9th percentile in microseconds; all zero without a sample.
    /// The samples are left in ascending order.
    pub fn percentiles<A: Arith>(&mut self) -> (p: (A::T, A::T, A::T, A::T))
        requires
            lawful::<A>(),
        ensures
            final(self).samples@.to_multiset() == old(self).samples@.to_multiset(),
            final(self).samples@.len() == old(self).samples@.len(),
            final(self).capacity == old(self).capacity,
            ascends(final(self).samples@),
            old(self).samples@.len() == 0 ==> p == (
                zero::<A>(),
                zero::<A>(),
                zero::<A>(),
                zero::<A>(),
            ),
            ({
                let n = old(self).samples@.len();
                let sorted = final(self).samples@;
                n > 0 ==> p == (
                    micros::<A>(sorted[share_index::<A>(n, 50, 2)]),
                    micros::<A>(sorted[share_index::<A>(n, 95, 2)]),
                    micros::<A>(sorted[share_index::<A>(n, 99, 2)]),
                    micros::<A>(sorted[share_index::<A>(n, 999, 3)]),
                )
            }),
    {
        if self.samples.len() == 0 {
            return (A::lit(0, 0), A::lit(0, 0), A::lit(0, 0), A::lit(0, 0));
        }
        sort_numbers(&mut self.samples);
        let n: usize = self.samples.len();
        let p50 = self.at_share::<A>(n, 50, 2);
        let p95 = self.at_share::<A>(n, 95, 2);
        let p99 = self.at_share::<A>(n, 99, 2);
        let p999 = self.at_share::<A>(n, 999, 3);
        (p50, p95, p99, p999)
    }

    /// The sample at a share of the samples, in microseconds.
    fn at_share<A: Arith>(&self, n: usize, digits: u64, decimals: u32) -> (r: A::T)
        requires
            lawful::<A>(),
            n == self.samples@.len(),
            n > 0,
        ensures
            r == micros::<A>(self.samples@[share_index::<A>(n as nat, digits, decimals)]),
    {
        let i: usize = index_at_share::<A>(n, digits, decimals);
        A::over(A::count(self.samples[i] as usize), A::lit(1000, 0))
    }
}

} // verus!
