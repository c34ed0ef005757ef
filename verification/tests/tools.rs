//! Texts, options, step bounds, corpora, datasets, workloads and statistics.

use forge_core::args::{count_option, has_flag, option_value, seconds_option};
use forge_core::arith::Arith;
use forge_core::bench::{claim_c2, gflops, kernel_report, layer_flops};
use forge_core::bounded::{body_of, bounded, Bracket, Token};
use forge_core::config::{AxiomConfig, ForgeConfig, TransformerConfig};
use forge_core::corpus::{make_code, make_code_corpus, make_random, make_repetitive};
use forge_core::dataset::CharDataset;
use forge_core::schedule::{tokens_per_sec, Limit, Schedule, Turn};
use forge_core::stats::{index_at_percent, sorted_ascending, summary_of, LatencyHistogram};
use forge_core::text::{decimal_text, has_part, join, parse_u128};
use forge_core::workload::{
    coalesce, is_inline, operation_key, payload_size, program, request_address, route,
    rss_kb_from_statm, share, subscriber, worker_counts, writes_before_crash, DurabilityMode,
    Opcodes,
};
use rand::rngs::StdRng;
use rand::{Rng, SeedableRng};

/// Single precision floats.
#[derive(Debug, Clone, Copy)]
struct F32;

impl Arith for F32 {
    type T = f32;

    fn lit(digits: u64, decimals: u32) -> f32 {
        match (digits, decimals) {
            (n, 0) => n as f32,
            (5, 1) => 0.5,
            (1, 4) => 1e-4,
            (1, 5) => 1e-5,
            (1, 6) => 1e-6,
            (1, 12) => 1e-12,
            (44715, 6) => 0.044715,
            (79788456, 8) => 0.79788456,
            _ => format!("{}e-{}", digits, decimals).parse().unwrap(),
        }
    }

    fn neg_inf() -> f32 {
        f32::NEG_INFINITY
    }

    fn count(n: usize) -> f32 {
        n as f32
    }

    fn plus(a: f32, b: f32) -> f32 {
        a + b
    }

    fn minus(a: f32, b: f32) -> f32 {
        a - b
    }

    fn times(a: f32, b: f32) -> f32 {
        a * b
    }

    fn over(a: f32, b: f32) -> f32 {
        a / b
    }

    fn negate(a: f32) -> f32 {
        -a
    }

    fn exceeds(a: f32, b: f32) -> bool {
        a > b
    }

    fn equals(a: f32, b: f32) -> bool {
        a == b
    }

    fn larger(a: f32, b: f32) -> f32 {
        a.max(b)
    }

    fn exp(a: f32) -> f32 {
        a.exp()
    }

    fn ln(a: f32) -> f32 {
        a.ln()
    }

    fn tanh(a: f32) -> f32 {
        a.tanh()
    }

    fn sqrt(a: f32) -> f32 {
        a.sqrt()
    }

    fn powf(a: f32, b: f32) -> f32 {
        a.powf(b)
    }

    fn powi(a: f32, n: u32) -> f32 {
        a.powi(n as i32)
    }

    fn cos(a: f32) -> f32 {
        a.cos()
    }

    fn smaller(a: f32, b: f32) -> f32 {
        a.min(b)
    }

    fn whole(a: f32) -> usize {
        a as usize
    }

    fn uniform(mut rng: StdRng, lo: f32, hi: f32) -> (f32, StdRng) {
        let x = rng.gen_range(lo..hi);
        (x, rng)
    }
}

/// Double precision floats.
#[derive(Debug, Clone, Copy)]
struct F64;

impl Arith for F64 {
    type T = f64;

    fn lit(digits: u64, decimals: u32) -> f64 {
        match (digits, decimals) {
            (n, 0) => n as f64,
            (5, 1) => 0.5,
            (1, 4) => 1e-4,
            (1, 5) => 1e-5,
            (1, 6) => 1e-6,
            (1, 12) => 1e-12,
            (44715, 6) => 0.044715,
            (79788456, 8) => 0.79788456,
            _ => format!("{}e-{}", digits, decimals).parse().unwrap(),
        }
    }

    fn neg_inf() -> f64 {
        f64::NEG_INFINITY
    }

    fn count(n: usize) -> f64 {
        n as f64
    }

    fn plus(a: f64, b: f64) -> f64 {
        a + b
    }

    fn minus(a: f64, b: f64) -> f64 {
        a - b
    }

    fn times(a: f64, b: f64) -> f64 {
        a * b
    }

    fn over(a: f64, b: f64) -> f64 {
        a / b
    }

    fn negate(a: f64) -> f64 {
        -a
    }

    fn exceeds(a: f64, b: f64) -> bool {
        a > b
    }

    fn equals(a: f64, b: f64) -> bool {
        a == b
    }

    fn larger(a: f64, b: f64) -> f64 {
        a.max(b)
    }

    fn exp(a: f64) -> f64 {
        a.exp()
    }

    fn ln(a: f64) -> f64 {
        a.ln()
    }

    fn tanh(a: f64) -> f64 {
        a.tanh()
    }

    fn sqrt(a: f64) -> f64 {
        a.sqrt()
    }

    fn powf(a: f64, b: f64) -> f64 {
        a.powf(b)
    }

    fn powi(a: f64, n: u32) -> f64 {
        a.powi(n as i32)
    }

    fn cos(a: f64) -> f64 {
        a.cos()
    }

    fn smaller(a: f64, b: f64) -> f64 {
        a.min(b)
    }

    fn whole(a: f64) -> usize {
        a as usize
    }

    fn uniform(mut rng: StdRng, lo: f64, hi: f64) -> (f64, StdRng) {
        let x = rng.gen_range(lo..hi);
        (x, rng)
    }
}

fn words(texts: &[&str]) -> Vec<String> {
    texts.iter().map(|s| s.to_string()).collect()
}

fn ident(s: &str) -> Token {
    Token::Ident(s.to_string())
}

fn literal(s: &str) -> Token {
    Token::Literal(s.to_string())
}

fn braces(tokens: Vec<Token>) -> Token {
    Token::Group { bracket: Bracket::Brace, tokens }
}

/// `for i in 0..end { body }`
fn for_range(end: Token, body: Vec<Token>) -> Vec<Token> {
    vec![
        ident("for"),
        ident("i"),
        ident("in"),
        literal("0"),
        Token::Punct('.'),
        Token::Punct('.'),
        end,
        braces(body),
    ]
}

#[test]
fn numbers_read_back_from_their_digits() {
    for n in [0u128, 7, 10, 4096, u128::MAX] {
        assert_eq!(decimal_text(n), n.to_string());
        assert_eq!(parse_u128(&decimal_text(n)), Some(n));
    }
    assert_eq!(parse_u128("+12"), Some(12));
    assert_eq!(parse_u128(""), None);
    assert_eq!(parse_u128("+"), None);
    assert_eq!(parse_u128("1a"), None);
    assert_eq!(parse_u128("340282366920938463463374607431768211456"), None);
    assert_eq!(join(&words(&["a", "b", "c"]), ", "), "a, b, c");
    assert_eq!(join(&[], ", "), "");
}

#[test]
fn parts_are_found_wherever_they_stand() {
    assert!(has_part("FORGE MRM+FastWeights", "MRM"));
    assert!(has_part("FORGE MRM+FastWeights", "Fast"));
    assert!(!has_part("FORGE MRM", "Fast"));
    assert!(has_part("abc", ""));
    assert!(!has_part("ab", "abc"));
    assert!(has_part("xxab", "ab"));
}

#[test]
fn options_are_read_behind_their_names() {
    let args = words(&["prog", "--dataset", "data/x", "--steps", "25", "--all"]);
    assert!(has_flag(&args, "--all"));
    assert!(!has_flag(&args, "--e1"));
    assert_eq!(option_value(&args, "--dataset").map(|s| s.as_str()), Some("data/x"));
    assert_eq!(option_value(&args, "--all"), None);
    assert_eq!(option_value(&args, "--max-time"), None);
    assert_eq!(count_option(&args, "--steps", 100), 25);
    assert_eq!(count_option(&args, "--dataset", 100), 100);
    assert_eq!(count_option(&args, "--layers", 4), 4);
    assert_eq!(seconds_option(&args, "--steps", 300), 25);
    let too_large = words(&["prog", "--max-time", "18446744073709551616"]);
    assert_eq!(seconds_option(&too_large, "--max-time", 300), 300);
    assert_eq!(option_value(&[], "--x"), None);
}

#[test]
fn loop_free_functions_get_no_checks() {
    let item = vec![ident("fn"), ident("f"), braces(vec![ident("x")])];
    assert_eq!(bounded(&[literal("64")], &item), "");
    assert_eq!(body_of(&item), Some(2));
    assert_eq!(body_of(&[ident("fn")]), None);
}

#[test]
fn bare_loops_and_while_are_refused() {
    for word in ["loop", "while"] {
        let item = vec![ident("fn"), ident("f"), braces(vec![ident(word), braces(vec![])])];
        let pre = bounded(&[literal("64")], &item);
        assert!(pre.starts_with("::core::compile_error!(\""));
    }
    let item = vec![ident("fn"), ident("f"), braces(vec![])];
    assert_eq!(
        bounded(&[], &item),
        "::core::compile_error!(\"#[bounded] requires a numeric bound, e.g. #[bounded(64)]\");"
    );
}

#[test]
fn literal_nests_are_multiplied_out() {
    let nest = for_range(literal("8"), for_range(literal("9"), vec![]));
    let item = vec![ident("fn"), ident("f"), braces(nest)];
    assert_eq!(bounded(&[literal("72")], &item), "");
    assert_eq!(
        bounded(&[literal("71")], &item),
        "::core::compile_error!(\"deepest loop nest 8 * 9 = 72 exceeds the declared bound 71\");"
    );
}

#[test]
fn literal_nests_past_all_numbers_are_refused() {
    let max = "340282366920938463463374607431768211455";
    let nest = for_range(literal(max), for_range(literal("2"), vec![]));
    let item = vec![ident("fn"), ident("f"), braces(nest)];
    assert_eq!(
        bounded(&[literal("64")], &item),
        format!("::core::compile_error!(\"deepest loop nest {max} * 2 exceeds the declared bound 64\");")
    );
    // A nest that is never entered keeps any bound.
    let inner = for_range(literal("2"), for_range(literal("0"), vec![]));
    let item = vec![ident("fn"), ident("f"), braces(for_range(literal(max), inner))];
    assert_eq!(bounded(&[literal("64")], &item), "");
}

#[test]
fn groups_without_brackets_read_as_what_they_hold() {
    // `for i in 0..=8 {}`, with the equals sign in groups without brackets.
    for depth in 0..3 {
        let mut sign = Token::Punct('=');
        for _ in 0..depth {
            sign = Token::Group { bracket: Bracket::Invisible, tokens: vec![sign] };
        }
        let mut nest = for_range(literal("8"), vec![]);
        nest.insert(6, sign);
        let item = vec![ident("fn"), ident("f"), braces(nest)];
        assert_eq!(bounded(&[literal("8")], &item), "");
        assert!(bounded(&[literal("7")], &item).contains("exceeds the declared bound 7"));
    }
    // Parentheses are no such group.
    let mut nest = for_range(literal("8"), vec![]);
    let sign = Token::Group { bracket: Bracket::Parenthesis, tokens: vec![Token::Punct('=')] };
    nest.insert(6, sign);
    let item = vec![ident("fn"), ident("f"), braces(nest)];
    assert!(!bounded(&[literal("7")], &item).contains("exceeds the declared bound 7"));
}

#[test]
fn constant_nests_get_an_assertion() {
    let nest = for_range(ident("MAX_N"), for_range(literal("4"), vec![]));
    let item = vec![ident("fn"), ident("f"), braces(nest)];
    assert_eq!(
        bounded(&[literal("64")], &item),
        "const _: () = assert!((MAX_N * 4) <= 64);"
    );
}

#[test]
fn corpora_repeat_their_texts() {
    assert_eq!(make_repetitive(30, 1), b"hello world hello world hello ".to_vec());
    assert_eq!(make_code(8), b"fn main(".to_vec());
    assert_eq!(make_code(0), Vec::<u8>::new());
    let code = make_code_corpus(40);
    assert_eq!(code.len(), 40);
    assert_eq!(&code[..12], b"def foo(x):\n");
    // The seed decides on random bytes, which are not all alike.
    let a = make_random(64, 2);
    assert_eq!(a, make_random(64, 2));
    assert_ne!(a, make_random(64, 3));
    assert!(a.iter().any(|&b| b != a[0]));
}

#[test]
fn datasets_split_and_shift() {
    let data: Vec<u8> = (0..100u8).collect();
    let set = CharDataset::from_bytes(data.clone());
    assert_eq!(set.vocab_size, 256);
    let (train, val) = set.split::<F32>(0.9);
    assert_eq!((train.len(), val.len()), (90, 10));
    assert_eq!([train.data, val.data].concat(), data);
    assert_eq!(CharDataset::from_bytes_limit(data.clone(), 7).data, data[..7].to_vec());
    assert_eq!(CharDataset::from_bytes_limit(data.clone(), 700).data, data);
    assert!(CharDataset::from_bytes(Vec::new()).is_empty());
    let mut rng = StdRng::seed_from_u64(5);
    let (xs, ys) = set.sample_batch(8, 6, &mut rng);
    assert_eq!((xs.len(), ys.len()), (8, 8));
    for (x, y) in xs.iter().zip(ys.iter()) {
        assert_eq!((x.len(), y.len()), (6, 6));
        assert_eq!(x[1..], y[..5]);
        assert!(x[0] + 6 <= 99);
    }
    // The windows do not all begin at the same position.
    assert!(xs.iter().any(|x| x != &xs[0]));
}

#[test]
fn configurations_count_their_parameters() {
    let cfg = TransformerConfig::toy_1m(256);
    assert_eq!(cfg.param_count(), 886_784);
    let small = TransformerConfig::small_10m(256);
    assert_eq!((small.d_model, small.n_layers, small.n_heads), (384, 6, 6));
    assert_eq!((small.d_ffn, small.max_seq_len), (1536, 512));
    let base = TransformerConfig::base_100m(256);
    assert_eq!((base.d_model, base.n_layers, base.n_heads), (768, 12, 12));
    assert_eq!((base.d_ffn, base.max_seq_len), (3072, 2048));
    let base: AxiomConfig<F32> = AxiomConfig::default();
    assert_eq!((base.vocab_size, base.d_model, base.num_experts), (256, 128, 8));
    assert_eq!(base.hebbian_decay, 0.999);
    assert_eq!(base.hebbian_lr, 1e-4);
    assert!(ForgeConfig::full().use_fast_weights);
    assert!(!ForgeConfig::no_mrm().use_mrm);
}

#[test]
fn status_lines_tell_the_resident_memory() {
    assert_eq!(rss_kb_from_statm("1234 567 89 1 0 2 0\n"), 2268);
    assert_eq!(rss_kb_from_statm("  1234\t567"), 2268);
    assert_eq!(rss_kb_from_statm("1234"), 0);
    assert_eq!(rss_kb_from_statm(""), 0);
    assert_eq!(rss_kb_from_statm("1 x 2"), 0);
}

#[test]
fn workers_step_up_to_the_threads() {
    assert_eq!(worker_counts(6), vec![1, 2, 4]);
    assert_eq!(worker_counts(0), vec![1]);
    assert_eq!(worker_counts(64), vec![1, 2, 4, 8, 16, 32, 64]);
    assert_eq!(share(10, 4), 2);
}

#[test]
fn a_hundred_messages_carry_the_mix() {
    let sizes: Vec<usize> = (0..100).map(payload_size).collect();
    assert_eq!(sizes.iter().filter(|&&s| s == 256).count(), 60);
    assert_eq!(sizes.iter().filter(|&&s| s == 2048).count(), 25);
    assert_eq!(sizes.iter().filter(|&&s| s == 16384).count(), 10);
    assert_eq!(sizes.iter().filter(|&&s| s == 65536).count(), 5);
    assert_eq!(sizes.iter().sum::<usize>(), 558080);
    assert_eq!(payload_size(160), 2048);
}

#[test]
fn messages_are_routed_between_users() {
    assert_eq!(route(2, 5, 100_000), (2005, 34091));
    assert_eq!(route(0, 99_999, 100_000), (99_999, (99_999 * 17 + 100_000) % 100_000));
}

#[test]
fn keys_recur_and_stay_short() {
    assert_eq!(operation_key("s", 3, 8192 + 17, 8192), "s:3:17");
    for (t, i) in [(0, 0), (15, 8191), (9, 100_000)] {
        assert!(is_inline(operation_key("s", t, i, 8192).len()));
    }
    assert!(!is_inline(16));
}

#[test]
fn no_one_is_in_two_groups() {
    let mut ids: Vec<u64> = Vec::new();
    for g in 0..4 {
        for u in 0..5 {
            ids.push(subscriber(g, 5, u));
        }
    }
    assert_eq!(ids, (0..20).collect::<Vec<u64>>());
}

#[test]
fn crash_runs_write_between_five_and_ten_thousand() {
    assert_eq!(writes_before_crash(1), 5037);
    assert_eq!(writes_before_crash(50), 6850);
    assert_eq!(writes_before_crash(136), 5032);
    assert_eq!(DurabilityMode::FsyncPerWrite.test_writes(), 50_000);
    assert_eq!(DurabilityMode::Buffered.test_writes(), 1_000_000);
    assert!(!DurabilityMode::Ram.has_log());
    assert!(DurabilityMode::GroupCommit.has_log());
}

#[test]
fn programs_come_in_four_kinds() {
    let op = Opcodes { push_int: 1, add: 2, div: 3, jump: 4 };
    assert_eq!(program(4, &op), vec![1, 1, 1, 1, 2, 4, 0]);
    assert_eq!(program(1, &op), vec![1, 0, 4, 0]);
    assert_eq!(program(2, &op), vec![1, 99, 1, 0, 3]);
    assert_eq!(program(7, &op), vec![1, 1, 1, 1, 2]);
}

#[test]
fn five_requests_share_an_address() {
    assert_eq!(request_address(0), "192.168.0.1");
    assert_eq!(request_address(4), "192.168.0.1");
    assert_eq!(request_address(5), "192.168.0.2");
    assert_eq!(request_address(254 * 5), "192.168.1.1");
}

#[test]
fn stampedes_coalesce() {
    let s = coalesce::<F64>(10_000_000, 10_000);
    assert_eq!((s.origin_calls, s.coalesced), (10_000, 9_990_000));
    assert_eq!(s.ratio, 0.999);
}

#[test]
fn values_come_out_in_ascending_order() {
    assert_eq!(sorted_ascending::<F64>(&[3.0, 1.0, 2.0, 1.0]), vec![1.0, 1.0, 2.0, 3.0]);
    assert_eq!(sorted_ascending::<F64>(&[]), Vec::<f64>::new());
    assert_eq!(index_at_percent(20, 95), 19);
    assert_eq!(index_at_percent(1, 99), 0);
    let values: Vec<f64> = (0..100).rev().map(|i| i as f64).collect();
    let s = summary_of::<F64>(&values);
    assert_eq!((s.p50, s.p95, s.p99, s.total), (50.0, 95.0, 99.0, 4950.0));
}

#[test]
fn histograms_keep_what_they_have_room_for() {
    let mut hist = LatencyHistogram::new(3);
    assert_eq!(hist.percentiles::<F64>(), (0.0, 0.0, 0.0, 0.0));
    for ns in [4000, 1000, 3000, 2000] {
        hist.record(ns);
    }
    assert_eq!(hist.samples, vec![4000, 1000, 3000]);
    let mut all = LatencyHistogram::new(1);
    all.record(500);
    all.absorb(&hist);
    assert_eq!(all.samples, vec![500, 4000, 1000, 3000]);
    // Sorted: 500, 1000, 3000, 4000 ns
    assert_eq!(all.percentiles::<F64>(), (3.0, 4.0, 4.0, 4.0));
    assert_eq!(all.samples, vec![500, 1000, 3000, 4000]);
}

#[test]
fn runs_end_with_their_steps_or_their_time() {
    let mut run = Schedule::new(3, 2);
    assert_eq!(run.next::<F64>(0.0, 10.0, Limit::Reached), Turn::TrainAndEvaluate(1));
    assert_eq!(run.next::<F64>(1.0, 10.0, Limit::Reached), Turn::TrainAndEvaluate(2));
    assert_eq!(run.next::<F64>(10.0, 10.0, Limit::Reached), Turn::TimeUp(3));
    assert_eq!(run.next::<F64>(10.0, 10.0, Limit::Exceeded), Turn::Train(3));
    assert_eq!(run.next::<F64>(2.0, 10.0, Limit::Exceeded), Turn::Done);
    assert_eq!(tokens_per_sec::<F64>(10, 32, 64, 2.0), 10240.0);
}

#[test]
fn kernels_are_reported() {
    assert_eq!(gflops::<F64>(2e6, 1000, 2.0), 1.0);
    let latencies: Vec<f64> = (1..=200).map(|i| i as f64).collect();
    let report = kernel_report::<F64>("top2", "E=16".to_string(), 0.0, 0.5, &latencies, 12.0);
    assert_eq!(report.kernel_name, "top2");
    assert_eq!(report.dimension, "E=16");
    assert_eq!(report.mean_latency_us, 2500.0);
    assert_eq!((report.p50_latency_us, report.p99_latency_us), (101.0, 199.0));
    assert_eq!(report.rss_mb, 12.0);
    let config: AxiomConfig<F32> = AxiomConfig::default();
    let (d, f, e) = (128.0, 512.0, 8.0);
    assert_eq!(
        layer_flops::<F32, F64>(&config),
        2.0 * d * d + 6.0 * d * d + 2.0 * e * d + 8.0 * d * f + 2.0 * d * d
    );
    let claim = claim_c2::<F32>(3.0);
    assert_eq!(claim.baseline, 3.0967);
    assert!(claim.passed);
    assert!(!claim_c2::<F32>(3.0967).passed);
    assert!(claim.delta_percent < 0.0);
}
