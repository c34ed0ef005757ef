//! Experiment E3: Surprise Gate Characterization.
//! Measures actual skip rate and gate distribution across text types.
//! The design claims 60-80% write skipping - this measures whether it occurs.

use vstd::prelude::*;
use crate::arith::{Arith, lawful, s_count, s_equals, s_exceeds, s_lit, s_over};
use crate::corpus::{code_snippet, make_code, make_random, make_repetitive, repeated};
use crate::exp_e2::{fit_for_recall, random_stream, stream_from_seed};
use crate::layer::zero_vec;
use crate::mrm::{MrmValues, MultiResMemory, gate_of, memory_keeps_its_size};
use crate::rng::{bytes_from_seed, seeded};
use crate::softmax::sum_of;
use crate::stats::{add_up, is_sorting, sorted_ascending};
use crate::vectors::{all_of_len, rows_in};

verus! {

/// How the surprise gate behaved on a text.
pub struct GateStats<A: Arith> {
    pub text_type: String,
    pub n_tokens: usize,
    pub skip_rate: A::T,
    pub write_rate: A::T,
    pub mean_surprise: A::T,
    pub p10_surprise: A::T,
    pub p50_surprise: A::T,
    pub p90_surprise: A::T,
    pub mean_gate: A::T,
}

impl<A: Arith> MrmValues<A> {
    /// The memory with another threshold.
    pub open spec fn with_threshold(&self, surprise_threshold: A::T) -> MrmValues<A> {
        MrmValues { surprise_threshold, ..*self }
    }
}

/// The memory after the first `n` bytes of a text, each looked up in a table.
pub open spec fn memory_after<A: Arith>(
    m: MrmValues<A>,
    table: Seq<Seq<A::T>>,
    text: Seq<u8>,
    n: nat,
) -> MrmValues<A>
    decreases n,
{
    if n == 0 {
        m
    } else {
        memory_after(m, table, text, (n - 1) as nat).next(table[text[n - 1] as int], true)
    }
}

/// The surprises of the first `n` bytes of a text.
pub open spec fn surprises_of<A: Arith>(
    m: MrmValues<A>,
    table: Seq<Seq<A::T>>,
    text: Seq<u8>,
    n: nat,
) -> Seq<A::T> {
    Seq::new(
        n,
        |i: int| memory_after(m, table, text, i as nat).surprise_of(table[text[i] as int]),
    )
}

/// The gates of some surprises.
pub open spec fn gates_of<A: Arith>(surprises: Seq<A::T>, threshold: A::T) -> Seq<A::T> {
    Seq::new(surprises.len(), |i: int| gate_of::<A>(surprises[i], threshold))
}

/// The mean of some values.
pub open spec fn mean_of<A: Arith>(values: Seq<A::T>) -> A::T {
    s_over::<A>(sum_of::<A>(values, values.len()), s_count::<A>(values.len() as usize))
}

/// The statistics are those of a text, at most its first 4096 bytes, seen by a memory.
pub open spec fn are_gate_stats<A: Arith>(
    stats: GateStats<A>,
    m: MrmValues<A>,
    table: Seq<Seq<A::T>>,
    text: Seq<u8>,
) -> bool {
    let n = if text.len() < 4096 {
        text.len()
    } else {
        4096
    };
    let after = memory_after(m, table, text, n);
    let surprises = surprises_of(m, table, text, n);
    &&& stats.n_tokens == n
    &&& stats.skip_rate == s_over::<A>(
        s_count::<A>((after.total_tokens - after.total_writes) as usize),
        s_count::<A>(after.total_tokens as usize),
    )
    &&& stats.write_rate == s_over::<A>(
        s_count::<A>(after.total_writes as usize),
        s_count::<A>(after.total_tokens as usize),
    )
    &&& stats.mean_surprise == mean_of::<A>(surprises)
    &&& stats.mean_gate == mean_of::<A>(gates_of::<A>(surprises, m.surprise_threshold))
    &&& are_deciles::<A>(surprises, stats.p10_surprise, stats.p50_surprise, stats.p90_surprise)
}

/// The first decile, the median and the last decile of some values.
pub open spec fn are_deciles<A: Arith>(
    values: Seq<A::T>,
    p10: A::T,
    p50: A::T,
    p90: A::T,
) -> bool {
    exists|sorted: Seq<A::T>| #[trigger]
        is_sorting::<A>(values, sorted) && p10 == sorted[values.len() as int / 10] && p50
            == sorted[values.len() as int / 2] && p90 == sorted[values.len() as int * 9 / 10]
}

/// Stream a text through an empty memory, with a table of vectors for its bytes.
pub fn measure_gate<A: Arith>(
    text: &[u8],
    label: &str,
    embed_table: &Vec<Vec<A::T>>,
    mrm: MultiResMemory<A>,
) -> (stats: GateStats<A>)
    requires
        lawful::<A>(),
        text@.len() > 0,
        fit_for_recall(mrm@),
        mrm@.total_tokens == 0,
        mrm@.total_writes == 0,
        embed_table@.len() == 256,
        all_of_len(rows_in(embed_table@), mrm.d as nat),
    ensures
        stats.text_type@ == label@,
        are_gate_stats(stats, mrm@, rows_in(embed_table@), text@),
{
    let ghost table = rows_in(embed_table@);
    let ghost m0 = mrm@;
    let mut mrm = mrm;
    let threshold = mrm.surprise_threshold;
    let n: usize = if text.len() < 4096 {
        text.len()
    } else {
        4096
    };
    let mut surprises: Vec<A::T> = Vec::with_capacity(n);
    let mut gates: Vec<A::T> = Vec::with_capacity(n);
    let mut out = zero_vec::<A>(mrm.d);
    let mut i: usize = 0;
    while i < n
        invariant
            lawful::<A>(),
            i <= n,
            n <= text@.len(),
            n <= 4096,
            table == rows_in(embed_table@),
            embed_table@.len() == 256,
            all_of_len(table, mrm.d as nat),
            out@.len() == mrm.d,
            threshold == m0.surprise_threshold,
            mrm@.surprise_threshold == threshold,
            fit_for_recall(mrm@),
            mrm@.total_tokens == i,
            0 <= mrm@.total_writes <= i,
            mrm@ == memory_after(m0, table, text@, i as nat),
            surprises@ == surprises_of(m0, table, text@, i as nat),
            gates@ == gates_of::<A>(surprises@, threshold),
        decreases n - i,
    {
        let tok: usize = text[i] as usize;
        assert(table[tok as int].len() == mrm.d);
        let h = embed_table[tok].as_slice();
        let surp = mrm.surprise(h);
        let gate = A::over(
            A::lit(1, 0),
            A::plus(
                A::lit(1, 0),
                A::exp(A::times(A::negate(A::minus(surp, threshold)), A::lit(10, 0))),
            ),
        );
        surprises.push(surp);
        gates.push(gate);
        proof {
            memory_keeps_its_size::<A>(mrm@, h@, true);
        }
        mrm.forward(h, out.as_mut_slice(), true);
        i += 1;
        assert(surprises@ =~= surprises_of(m0, table, text@, i as nat));
        assert(gates@ =~= gates_of::<A>(surprises@, threshold));
    }
    let sorted = sorted_ascending::<A>(surprises.as_slice());
    assert(is_sorting::<A>(surprises@, sorted@));
    let stats = GateStats {
        text_type: label.to_string(),
        n_tokens: n,
        skip_rate: mrm.stats.skip_rate(),
        write_rate: mrm.stats.write_rate(),
        mean_surprise: A::over(add_up::<A>(surprises.as_slice()), A::count(n)),
        p10_surprise: sorted[n / 10],
        p50_surprise: sorted[n / 2],
        p90_surprise: sorted[n * 9 / 10],
        mean_gate: A::over(add_up::<A>(gates.as_slice()), A::count(n)),
    };
    assert(are_deciles::<A>(
        surprises@,
        stats.p10_surprise,
        stats.p50_surprise,
        stats.p90_surprise,
    ));
    stats
}

/// The statistics of a text under a name, from an empty memory of the given size and threshold.
/// The projections of the memory and the table of vectors for the bytes have fixed seeds.
pub open spec fn is_report<A: Arith>(
    stats: GateStats<A>,
    text: Seq<u8>,
    label: Seq<char>,
    d: usize,
    k_fine: usize,
    k_coarse: usize,
    surprise_threshold: A::T,
) -> bool {
    &&& stats.text_type@ == label
    &&& exists|mrm: MultiResMemory<A>, table: Seq<Seq<A::T>>|
        {
            &&& mrm.is_new(d, k_fine, k_coarse)
            &&& mrm.is_drawn(777)
            &&& stream_from_seed::<A>(9999, d as nat, 256, table)
            &&& #[trigger] are_gate_stats(
                stats,
                mrm@.with_threshold(surprise_threshold),
                table,
                text,
            )
        }
}

/// Run E3 on a text corpus (or synthetic type), return gate statistics. The projections of the
/// memory and the table of vectors for the bytes are drawn from seeds of their own.
pub fn run_e3_on_text<A: Arith>(
    text: &[u8],
    label: &str,
    d: usize,
    k_fine: usize,
    k_coarse: usize,
    surprise_threshold: A::T,
) -> (stats: GateStats<A>)
    requires
        lawful::<A>(),
        text@.len() > 0,
        k_fine > 0,
        k_coarse > 0 || d == 0,
        k_fine + k_coarse <= usize::MAX,
        k_fine * d <= usize::MAX,
        k_coarse * d <= usize::MAX,
        d * d <= usize::MAX,
    ensures
        is_report(stats, text@, label@, d, k_fine, k_coarse, surprise_threshold),
{
    let mut mrm = MultiResMemory::<A>::new(d, k_fine, k_coarse, 777);
    let ghost fresh = mrm;
    mrm.surprise_threshold = surprise_threshold;
    // Simple byte -> embedding: use a small random lookup table (d-dim)
    let mut rng = seeded(9999);
    let embed_table = random_stream::<A>(&mut rng, d, 256);
    assert(mrm@ == fresh@.with_threshold(surprise_threshold));
    assert(rows_in(embed_table@).len() == 256);
    measure_gate(text, label, &embed_table, mrm)
}

/// The share of a text that run E3 looks at: its first 4096 bytes.
pub open spec fn head_of(text: Seq<u8>) -> Seq<u8> {
    if text.len() < 4096 {
        text
    } else {
        text.take(4096)
    }
}

/// The texts that E3 compares, each with its name.
pub fn e3_texts(enwik8_data: &[u8]) -> (texts: Vec<(&'static str, Vec<u8>)>)
    ensures
        texts@.len() == 4,
        texts@[0].0@ == "Repetitive text"@,
        texts@[0].1@ == repeated("hello world hello world "@, 4096),
        texts@[1].0@ == "Normal Wikipedia"@,
        texts@[1].1@ == head_of(enwik8_data@),
        texts@[2].0@ == "Code (synthetic)"@,
        texts@[2].1@ == repeated(code_snippet(), 4096),
        texts@[3].0@ == "Random bytes"@,
        bytes_from_seed(2, 4096, texts@[3].1@),
{
    let cut: usize = if enwik8_data.len() < 4096 {
        enwik8_data.len()
    } else {
        4096
    };
    let (head, _) = enwik8_data.split_at(cut);
    let wiki = vstd::slice::slice_to_vec(head);
    assert(wiki@ =~= head_of(enwik8_data@));
    let mut texts: Vec<(&'static str, Vec<u8>)> = Vec::new();
    texts.push(("Repetitive text", make_repetitive(4096, 1)));
    texts.push(("Normal Wikipedia", wiki));
    texts.push(("Code (synthetic)", make_code(4096)));
    texts.push(("Random bytes", make_random(4096, 2)));
    texts
}

/// Run E3 on some texts in turn, at the usual threshold.
pub fn run_e3_on_texts<A: Arith>(
    texts: &Vec<(&'static str, Vec<u8>)>,
    d: usize,
    k_fine: usize,
    k_coarse: usize,
) -> (stats: Vec<GateStats<A>>)
    requires
        lawful::<A>(),
        forall|i: int| 0 <= i < texts@.len() ==> (#[trigger] texts@[i]).1@.len() > 0,
        k_fine > 0,
        k_coarse > 0 || d == 0,
        k_fine + k_coarse <= usize::MAX,
        k_fine * d <= usize::MAX,
        k_coarse * d <= usize::MAX,
        d * d <= usize::MAX,
    ensures
        stats@.len() == texts@.len(),
        forall|i: int|
            0 <= i < texts@.len() ==> is_report(
                #[trigger] stats@[i],
                texts@[i].1@,
                texts@[i].0@,
                d,
                k_fine,
                k_coarse,
                s_lit::<A>(3, 1),
            ),
{
    let mut stats: Vec<GateStats<A>> = Vec::new();
    let mut n: usize = 0;
    while n < texts.len()
        invariant
            lawful::<A>(),
            forall|i: int| 0 <= i < texts@.len() ==> (#[trigger] texts@[i]).1@.len() > 0,
            k_fine > 0,
            k_coarse > 0 || d == 0,
            k_fine + k_coarse <= usize::MAX,
            k_fine * d <= usize::MAX,
            k_coarse * d <= usize::MAX,
            d * d <= usize::MAX,
            n <= texts@.len(),
            stats@.len() == n,
            forall|i: int|
                0 <= i < n ==> is_report(
                    #[trigger] stats@[i],
                    texts@[i].1@,
                    texts@[i].0@,
                    d,
                    k_fine,
                    k_coarse,
                    s_lit::<A>(3, 1),
                ),
        decreases texts@.len() - n,
    {
        let text = &texts[n];
        let s = run_e3_on_text::<A>(
            text.1.as_slice(),
            text.0,
            d,
            k_fine,
            k_coarse,
            A::lit(3, 1),
        );
        stats.push(s);
        n += 1;
    }
    stats
}

/// Whether the skip rate confirms the hypothesis: at least 60 percent.
pub fn e3_confirmed<A: Arith>(skip_rate: A::T) -> (confirmed: bool)
    requires
        lawful::<A>(),
    ensures
        confirmed <==> s_exceeds::<A>(skip_rate, s_lit::<A>(60, 2)) || s_equals::<A>(
            skip_rate,
            s_lit::<A>(60, 2),
        ),
{
    A::exceeds(skip_rate, A::lit(60, 2)) || A::equals(skip_rate, A::lit(60, 2))
}

} // verus!
