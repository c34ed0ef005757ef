//! Reports of the kernel benchmarks.

use vstd::prelude::*;
use crate::arith::{Arith, lawful, s_count, s_exceeds, s_lit, s_minus, s_over, s_plus, s_times};
use crate::config::AxiomConfig;
use crate::stats::{is_sorting, sorted_ascending};

verus! {

/// What a kernel benchmark measured.
pub struct BenchmarkReport<B: Arith> {
    pub kernel_name: String,
    pub dimension: String,
    pub throughput_gflops: B::T,
    pub mean_latency_us: B::T,
    pub p50_latency_us: B::T,
    pub p99_latency_us: B::T,
    pub rss_mb: B::T,
}

/// Billions of operations per second.
pub open spec fn gflops_of<B: Arith>(flops: B::T, iters: usize, seconds: B::T) -> B::T {
    s_over::<B>(
        s_times::<B>(flops, s_count::<B>(iters)),
        s_times::<B>(seconds, s_lit::<B>(1000000000, 0)),
    )
}

/// Billions of operations per second.
pub fn gflops<B: Arith>(flops: B::T, iters: usize, seconds: B::T) -> (r: B::T)
    requires
        lawful::<B>(),
    ensures
        r == gflops_of::<B>(flops, iters, seconds),
{
    B::over(B::times(flops, B::count(iters)), B::times(seconds, B::lit(1000000000, 0)))
}

/// The report holds the median and the 99th percentile of some latencies.
pub open spec fn reports<B: Arith>(report: BenchmarkReport<B>, latencies: Seq<B::T>) -> bool {
    exists|sorted: Seq<B::T>| #[trigger]
        is_sorting::<B>(latencies, sorted) && report.p50_latency_us == sorted[latencies.len() as int
            / 2] && report.p99_latency_us == sorted[latencies.len() as int * 99 / 100]
}

/// Report on the latencies of a kernel that took `seconds` in all.
pub fn kernel_report<B: Arith>(
    kernel_name: &str,
    dimension: String,
    throughput_gflops: B::T,
    seconds: B::T,
    latencies_us: &[B::T],
    rss_mb: B::T,
) -> (report: BenchmarkReport<B>)
    requires
        lawful::<B>(),
        latencies_us@.len() > 0,
        latencies_us@.len() * 99 <= usize::MAX,
    ensures
        report.kernel_name@ == kernel_name@,
        report.dimension@ == dimension@,
        report.throughput_gflops == throughput_gflops,
        report.mean_latency_us == s_over::<B>(
            s_times::<B>(seconds, s_lit::<B>(1000000, 0)),
            s_count::<B>(latencies_us@.len() as usize),
        ),
        report.rss_mb == rss_mb,
        reports::<B>(report, latencies_us@),
{
    let iters: usize = latencies_us.len();
    let sorted = sorted_ascending::<B>(latencies_us);
    let report = BenchmarkReport {
        kernel_name: kernel_name.to_string(),
        dimension,
        throughput_gflops,
        mean_latency_us: B::over(B::times(seconds, B::lit(1000000, 0)), B::count(iters)),
        p50_latency_us: sorted[iters / 2],
        p99_latency_us: sorted[(iters * 99) / 100],
        rss_mb,
    };
    assert(is_sorting::<B>(latencies_us@, sorted@));
    report
}

/// `factor * a * b`
pub open spec fn product_of<B: Arith>(factor: u64, a: usize, b: usize) -> B::T {
    s_times::<B>(s_times::<B>(s_lit::<B>(factor, 0), s_count::<B>(a)), s_count::<B>(b))
}

/// `factor * a * b`
pub fn product<B: Arith>(factor: u64, a: usize, b: usize) -> (r: B::T)
    requires
        lawful::<B>(),
    ensures
        r == product_of::<B>(factor, a, b),
{
    B::times(B::times(B::lit(factor, 0), B::count(a)), B::count(b))
}

/// FLOPs of a token in a layer: 2d^2 (recall) + 6d^2 (recurrence) + 2Ed (routing) + 8d*d_ffn (two
/// experts) + 2d^2 (memory write)
pub open spec fn layer_flops_of<B: Arith>(d: usize, d_ffn: usize, num_experts: usize) -> B::T {
    s_plus::<B>(
        s_plus::<B>(
            s_plus::<B>(
                s_plus::<B>(product_of::<B>(2, d, d), product_of::<B>(6, d, d)),
                product_of::<B>(2, num_experts, d),
            ),
            product_of::<B>(8, d, d_ffn),
        ),
        product_of::<B>(2, d, d),
    )
}

/// FLOPs of a token in a layer.
pub fn layer_flops<A: Arith, B: Arith>(config: &AxiomConfig<A>) -> (flops: B::T)
    requires
        lawful::<B>(),
    ensures
        flops == layer_flops_of::<B>(config.d_model, config.d_ffn, config.num_experts),
{
    let (d, d_ffn, e): (usize, usize, usize) = (
        config.d_model,
        config.d_ffn,
        config.num_experts,
    );
    let recall = product::<B>(2, d, d);
    let recurrence = product::<B>(6, d, d);
    let routing = product::<B>(2, e, d);
    let experts = product::<B>(8, d, d_ffn);
    let write = product::<B>(2, d, d);
    B::plus(B::plus(B::plus(B::plus(recall, recurrence), routing), experts), write)
}

/// How a stack compares with the single-layer baseline of 3.0967 BPC.
pub struct StackClaim<A: Arith> {
    pub baseline: A::T,
    /// The difference in percent of the baseline.
    pub delta_percent: A::T,
    pub passed: bool,
}

/// Claim C2: the full stack does better than the single-layer baseline.
pub fn claim_c2<A: Arith>(full_stack_bpc: A::T) -> (claim: StackClaim<A>)
    requires
        lawful::<A>(),
    ensures
        claim.baseline == s_lit::<A>(30967, 4),
        claim.passed <==> s_exceeds::<A>(claim.baseline, full_stack_bpc),
        claim.delta_percent == s_times::<A>(
            s_over::<A>(s_minus::<A>(full_stack_bpc, claim.baseline), claim.baseline),
            s_lit::<A>(100, 0),
        ),
{
    let baseline = A::lit(30967, 4);
    let delta = A::over(A::minus(full_stack_bpc, baseline), baseline);
    StackClaim {
        baseline,
        delta_percent: A::times(delta, A::lit(100, 0)),
        passed: A::exceeds(baseline, full_stack_bpc),
    }
}

} // verus!
