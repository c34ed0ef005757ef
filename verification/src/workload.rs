//! The workloads of the messaging benchmarks: which keys, payloads, routes, addresses and programs
//! their operations use, and what they add up to.

use vstd::prelude::*;
use crate::arith::{Arith, lawful, s_count, s_over};
use crate::text::{chars_of, decimal, decimal_text, parse_u128, u128_of};

verus! {

/// A character that separates words (the White_Space property).
pub open spec fn is_space(c: char) -> bool {
    let n = c as u32;
    ||| 9 <= n <= 13
    ||| n == 32
    ||| n == 0x85
    ||| n == 0xA0
    ||| n == 0x1680
    ||| 0x2000 <= n <= 0x200A
    ||| n == 0x2028
    ||| n == 0x2029
    ||| n == 0x202F
    ||| n == 0x205F
    ||| n == 0x3000
}

/// The first position from `from` on whose character is a space, or is none, as asked; the length
/// of the text if there is none.
pub open spec fn next_where(s: Seq<char>, space: bool, from: nat) -> nat
    decreases s.len() - from,
{
    if from >= s.len() || is_space(s[from as int]) == space {
        from
    } else {
        next_where(s, space, from + 1)
    }
}

/// Word `k` of a text, counted from the word at or behind `from`; empty if there is none.
pub open spec fn word_from(s: Seq<char>, k: nat, from: nat) -> Seq<char>
    decreases k,
{
    let start = next_where(s, false, from);
    let end = next_where(s, true, start);
    if k == 0 {
        s.subrange(start as int, end as int)
    } else {
        word_from(s, (k - 1) as nat, end)
    }
}

/// The first position from `from` on whose character is a space, or is none, as asked.
fn find_where(chars: &Vec<char>, space: bool, from: usize) -> (i: usize)
    requires
        from <= chars@.len(),
    ensures
        i == next_where(chars@, space, from as nat),
        from <= i <= chars@.len(),
{
    let mut i: usize = from;
    while i < chars.len()
        invariant
            from <= i <= chars@.len(),
            next_where(chars@, space, from as nat) == next_where(chars@, space, i as nat),
        decreases chars@.len() - i,
    {
        let n: u32 = chars[i] as u32;
        let found: bool = 9 <= n && n <= 13 || n == 32 || n == 0x85 || n == 0xA0 || n == 0x1680
            || 0x2000 <= n && n <= 0x200A || n == 0x2028 || n == 0x2029 || n == 0x202F || n
            == 0x205F || n == 0x3000;
        if found == space {
            return i;
        }
        i += 1;
    }
    i
}

/// The resident memory in KB that a process status line tells: its second word is the number of
/// pages, of 4 KB each.
pub open spec fn resident_kb(statm: Seq<char>) -> usize {
    match u128_of(word_from(statm, 1, 0)) {
        Some(pages) if pages * 4 <= usize::MAX => (pages * 4) as usize,
        _ => 0,
    }
}

/// The resident memory in KB that a process status line tells; zero if it tells none that fits.
pub fn rss_kb_from_statm(statm: &str) -> (kb: usize)
    ensures
        kb == resident_kb(statm@),
{
    let chars = chars_of(statm);
    let first: usize = find_where(&chars, false, 0);
    let gap: usize = find_where(&chars, true, first);
    let start: usize = find_where(&chars, false, gap);
    let end: usize = find_where(&chars, true, start);
    let word = statm.substring_char(start, end);
    proof {
        reveal_with_fuel(word_from, 2);
    }
    assert(word@ == word_from(statm@, 1, 0));
    match parse_u128(word) {
        Some(pages) => if pages <= (usize::MAX / 4) as u128 {
            (pages * 4) as usize
        } else {
            0
        },
        None => 0,
    }
}

/// The numbers of workers that a benchmark steps through.
pub open spec fn worker_steps() -> Seq<usize> {
    seq![1, 2, 4, 8, 16, 32, 64]
}

/// The numbers of workers to try: those that there are threads for, and one in any case.
pub fn worker_counts(max_threads: usize) -> (counts: Vec<usize>)
    ensures
        counts@ == worker_steps().filter(|w: usize| w <= max_threads || w == 1),
{
    let steps: [usize; 7] = [1, 2, 4, 8, 16, 32, 64];
    let ghost keep = |w: usize| w <= max_threads || w == 1;
    let mut counts: Vec<usize> = Vec::new();
    let mut i: usize = 0;
    assert(steps@ =~= worker_steps());
    assert(steps@.take(0).filter(keep) =~= Seq::<usize>::empty()) by {
        reveal(Seq::filter);
    }
    while i < 7
        invariant
            i <= 7,
            steps@ == worker_steps(),
            steps@.len() == 7,
            keep == (|w: usize| w <= max_threads || w == 1),
            counts@ == steps@.take(i as int).filter(keep),
        decreases 7 - i,
    {
        let w: usize = steps[i];
        proof {
            reveal(Seq::filter);
            assert(steps@.take(i + 1).drop_last() =~= steps@.take(i as int));
            assert(steps@.take(i + 1).last() == w);
        }
        if w <= max_threads || w == 1 {
            counts.push(w);
        }
        i += 1;
    }
    assert(steps@.take(7) =~= worker_steps());
    counts
}

/// The payload of message `i` of a mix: 256 B (60%), 2 KB (25%), 16 KB (10%), 64 KB (5%)
pub open spec fn payload_bytes(i: nat) -> nat {
    let k = i % 100;
    if k < 60 {
        256
    } else if k < 85 {
        2048
    } else if k < 95 {
        16384
    } else {
        65536
    }
}

/// The payload of message `i` of a mix.
pub fn payload_size(i: usize) -> (n: usize)
    ensures
        n == payload_bytes(i as nat),
{
    let k: usize = i % 100;
    if k < 60 {
        256
    } else if k < 85 {
        2048
    } else if k < 95 {
        16384
    } else {
        65536
    }
}

/// The payloads of the first `n` messages of a mix.
pub open spec fn mix_bytes(n: nat) -> nat
    decreases n,
{
    if n == 0 {
        0
    } else {
        mix_bytes((n - 1) as nat) + payload_bytes((n - 1) as nat)
    }
}

/// The payloads of a part of a hundred messages.
proof fn lemma_part_of_mix(blocks: nat, k: nat)
    requires
        k <= 100,
    ensures
        mix_bytes(100 * blocks + k) == mix_bytes(100 * blocks) + (if k <= 60 {
            256 * k as int
        } else if k <= 85 {
            15360 + 2048 * (k - 60)
        } else if k <= 95 {
            66560 + 16384 * (k - 85)
        } else {
            230400 + 65536 * (k - 95)
        }),
    decreases k,
{
    if k > 0 {
        lemma_part_of_mix(blocks, (k - 1) as nat);
        let n = (100 * blocks + k - 1) as nat;
        assert(n % 100 == k - 1);
        assert(100 * blocks + k == n + 1);
    }
}

/// The mix keeps its shares: any number of whole hundreds of messages carries 5580.8 bytes a
/// message, which is what 60% of 256 B, 25% of 2 KB, 10% of 16 KB and 5% of 64 KB come to.
pub proof fn payload_mix_keeps_its_shares(hundreds: nat)
    ensures
        mix_bytes(100 * hundreds) == hundreds * (60 * 256 + 25 * 2048 + 10 * 16384 + 5 * 65536),
    decreases hundreds,
{
    if hundreds > 0 {
        let before = (hundreds - 1) as nat;
        payload_mix_keeps_its_shares(before);
        lemma_part_of_mix(before, 100);
        assert(100 * before + 100 == 100 * hundreds);
        assert(hundreds * 558080 == before * 558080 + 558080) by (nonlinear_arith)
            requires
                hundreds == before + 1,
        ;
    }
}

/// Sender and recipient of message `i` of thread `t`.
pub open spec fn route_of(t: nat, i: nat, users: nat) -> (nat, nat) {
    let sender = (t * 1000 + i) % users;
    (sender, (sender * 17 + i + 1) % users)
}

/// Sender and recipient of message `i` of thread `t`.
pub fn route(t: usize, i: usize, users: usize) -> (r: (usize, usize))
    requires
        users > 0,
        t * 1000 + i <= usize::MAX,
        (users - 1) * 17 + i + 1 <= usize::MAX,
    ensures
        (r.0 as nat, r.1 as nat) == route_of(t as nat, i as nat, users as nat),
        r.0 < users,
        r.1 < users,
{
    let sender: usize = (t * 1000 + i) % users;
    (sender, (sender * 17 + i + 1) % users)
}

/// The share of one of `workers` workers of some operations.
pub fn share(operations: usize, workers: usize) -> (n: usize)
    requires
        workers > 0,
    ensures
        n == operations / workers,
        n * workers <= operations,
{
    assert((operations / workers) * workers <= operations) by (nonlinear_arith)
        requires
            workers > 0,
    ;
    operations / workers
}

/// The key of operation `i` of a worker; keys recur after `modulus` operations.
pub open spec fn key_of(prefix: Seq<char>, worker: nat, i: nat, modulus: nat) -> Seq<char> {
    prefix + seq![':'] + decimal(worker) + seq![':'] + decimal(i % modulus)
}

/// The key of operation `i` of a worker; keys recur after `modulus` operations.
pub fn operation_key(prefix: &str, worker: usize, i: usize, modulus: usize) -> (key: String)
    requires
        modulus > 0,
    ensures
        key@ == key_of(prefix@, worker as nat, i as nat, modulus as nat),
{
    let mut key = String::new();
    proof {
        reveal_strlit(":");
    }
    key.append(prefix);
    key.append(":");
    key.append(decimal_text(worker as u128).as_str());
    key.append(":");
    key.append(decimal_text((i % modulus) as u128).as_str());
    assert(key@ =~= key_of(prefix@, worker as nat, i as nat, modulus as nat));
    key
}

/// Whether a key of some bytes is stored inline.
pub fn is_inline(size: usize) -> (inline: bool)
    ensures
        inline <==> size <= 15,
{
    size <= 15
}

/// A number below ten thousand has at most four digits.
proof fn lemma_four_digits(n: nat)
    requires
        n < 10000,
    ensures
        decimal(n).len() <= 4,
{
    reveal_with_fuel(decimal, 4);
}

/// The keys of the small-message benchmark are stored inline: up to 16 workers, a prefix of one
/// character and keys that recur after 8192 operations make at most 15 characters.
pub proof fn small_keys_are_inline(prefix: Seq<char>, worker: nat, i: nat)
    requires
        prefix.len() == 1,
        worker < 16,
    ensures
        key_of(prefix, worker, i, 8192).len() <= 15,
{
    lemma_four_digits(worker);
    lemma_four_digits(i % 8192);
}

/// A subscriber of a group.
pub open spec fn subscriber_of(group: nat, group_size: nat, member: nat) -> nat {
    group * group_size + member
}

/// A subscriber of a group.
pub fn subscriber(group: usize, group_size: usize, member: usize) -> (id: u64)
    requires
        group * group_size + member <= usize::MAX,
    ensures
        id == subscriber_of(group as nat, group_size as nat, member as nat),
{
    assert(0 <= group * group_size) by (nonlinear_arith);
    (group * group_size + member) as u64
}

/// No one is in two groups, and no two members of a group are one.
pub proof fn groups_are_disjoint(size: nat, g: nat, u: nat, h: nat, v: nat)
    requires
        u < size,
        v < size,
        subscriber_of(g, size, u) == subscriber_of(h, size, v),
    ensures
        g == h,
        u == v,
{
    assert(g == h) by (nonlinear_arith)
        requires
            g * size + u == h * size + v,
            0 <= u < size,
            0 <= v < size,
    ;
}

/// The writes of a crash run before it is cut off.
pub open spec fn crash_writes(run: nat) -> nat {
    5000 + (run * 37) % 5000
}

/// The writes of a crash run before it is cut off.
pub fn writes_before_crash(run: usize) -> (n: usize)
    requires
        run * 37 <= usize::MAX,
    ensures
        n == crash_writes(run as nat),
        5000 <= n < 10000,
{
    5000 + (run * 37) % 5000
}

/// How writes are made durable.
#[derive(Debug, Clone, Copy, PartialEq, Eq, Structural)]
pub enum DurabilityMode {
    Ram,
    Buffered,
    GroupCommit,
    FsyncPerWrite,
}

impl DurabilityMode {
    /// Writes that go to disk one by one are tested with fewer of them.
    pub fn test_writes(&self) -> (n: usize)
        ensures
            n == if *self == DurabilityMode::FsyncPerWrite {
                50_000int
            } else {
                1_000_000
            },
    {
        match self {
            DurabilityMode::FsyncPerWrite => 50_000,
            _ => 1_000_000,
        }
    }

    /// Whether there is a log at all.
    pub fn has_log(&self) -> (log: bool)
        ensures
            log <==> *self != DurabilityMode::Ram,
    {
        match self {
            DurabilityMode::Ram => false,
            _ => true,
        }
    }
}

/// The opcodes that the programs of the gas metering benchmark use.
pub struct Opcodes {
    pub push_int: u8,
    pub add: u8,
    pub div: u8,
    pub jump: u8,
}

/// Program `i`: a sum that loops, an empty loop, a division by zero, and a sum that ends.
pub open spec fn program_of(i: nat, op: Opcodes) -> Seq<u8> {
    let k = i % 4;
    if k == 0 {
        seq![op.push_int, 1, op.push_int, 1, op.add, op.jump, 0]
    } else if k == 1 {
        seq![op.push_int, 0, op.jump, 0]
    } else if k == 2 {
        seq![op.push_int, 99, op.push_int, 0, op.div]
    } else {
        seq![op.push_int, 1, op.push_int, 1, op.add]
    }
}

/// Program `i` of the gas metering benchmark.
pub fn program(i: usize, op: &Opcodes) -> (code: Vec<u8>)
    ensures
        code@ == program_of(i as nat, *op),
{
    let code = match i % 4 {
        0 => vec![op.push_int, 1, op.push_int, 1, op.add, op.jump, 0],
        1 => vec![op.push_int, 0, op.jump, 0],
        2 => vec![op.push_int, 99, op.push_int, 0, op.div],
        _ => vec![op.push_int, 1, op.push_int, 1, op.add],
    };
    assert(code@ =~= program_of(i as nat, *op));
    code
}

/// The last two parts of the address of request `i`: five requests come from one address.
pub open spec fn address_of(i: nat) -> (nat, nat) {
    ((i / 5) / 254, (i / 5) % 254 + 1)
}

/// The address of request `i` of the login benchmark.
pub fn request_address(i: usize) -> (ip: String)
    ensures
        ip@ == "192.168."@ + decimal(address_of(i as nat).0) + seq!['.'] + decimal(
            address_of(i as nat).1,
        ),
{
    let third: usize = (i / 5) / 254;
    let fourth: usize = (i / 5) % 254 + 1;
    proof {
        reveal_strlit(".");
    }
    let mut ip = String::new();
    ip.append("192.168.");
    ip.append(decimal_text(third as u128).as_str());
    ip.append(".");
    ip.append(decimal_text(fourth as u128).as_str());
    assert(ip@ =~= "192.168."@ + decimal(third as nat) + seq!['.'] + decimal(fourth as nat));
    ip
}

/// Requests come from one address five at a time, and an address does not come back: two requests
/// share theirs if and only if they are in the same five.
pub proof fn five_requests_share_an_address(i: nat, j: nat)
    ensures
        address_of(i) == address_of(j) <==> i / 5 == j / 5,
        1 <= address_of(i).1 <= 254,
{
    let (a, b) = (i / 5, j / 5);
    if address_of(i) == address_of(j) {
        vstd::arithmetic::div_mod::lemma_fundamental_div_mod(a as int, 254);
        vstd::arithmetic::div_mod::lemma_fundamental_div_mod(b as int, 254);
    }
}

/// What single-flight fetching makes of requests for keys that all expired at once.
pub struct Stampede<B: Arith> {
    /// Fetches from the origin: one a key.
    pub origin_calls: usize,
    /// Requests that waited for a fetch in flight.
    pub coalesced: usize,
    pub ratio: B::T,
}

/// Coalesce the requests for some keys.
pub fn coalesce<B: Arith>(requests: usize, keys: usize) -> (s: Stampede<B>)
    requires
        lawful::<B>(),
        keys <= requests,
    ensures
        s.origin_calls == keys,
        s.coalesced == requests - keys,
        s.origin_calls + s.coalesced == requests,
        s.ratio == s_over::<B>(s_count::<B>(s.coalesced), s_count::<B>(requests)),
{
    let coalesced: usize = requests - keys;
    Stampede {
        origin_calls: keys,
        coalesced,
        ratio: B::over(B::count(coalesced), B::count(requests)),
    }
}

} // verus!
