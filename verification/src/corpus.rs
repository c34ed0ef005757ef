//! Synthetic text corpora.

use vstd::prelude::*;
use crate::rng::{bytes_from_seed, draw_byte, draws_byte, draws_bytes, seeded};

verus! {

/// The first `n` bytes of `text` repeated without end.
pub open spec fn repeated(text: Seq<char>, n: nat) -> Seq<u8> {
    Seq::new(n, |i: int| text[i % (text.len() as int)] as u8)
}

/// The first `n` bytes of `text` repeated without end.
fn repeat_text(text: &str, n: usize) -> (bytes: Vec<u8>)
    requires
        text.is_ascii(),
        text@.len() > 0,
    ensures
        bytes@ == repeated(text@, n as nat),
{
    let pattern = text.as_bytes();
    let mut bytes: Vec<u8> = Vec::with_capacity(n);
    let mut i: usize = 0;
    while i < n
        invariant
            i <= n,
            pattern@ == Seq::new(text@.len(), |j: int| text@[j] as u8),
            text@.len() > 0,
            bytes@ == repeated(text@, i as nat),
        decreases n - i,
    {
        assert(0 <= i as int % (text@.len() as int) < text@.len());
        bytes.push(pattern[i % pattern.len()]);
        i += 1;
        assert(bytes@ =~= repeated(text@, i as nat));
    }
    bytes
}

/// Highly repetitive text.
pub fn make_repetitive(n: usize, _seed: u64) -> (bytes: Vec<u8>)
    ensures
        bytes@ == repeated("hello world hello world "@, n as nat),
{
    proof {
        reveal_strlit("hello world hello world ");
    }
    repeat_text("hello world hello world ", n)
}

/// Uniformly random bytes: those that the generator of the seed gives.
pub fn make_random(n: usize, seed: u64) -> (bytes: Vec<u8>)
    ensures
        bytes_from_seed(seed, n as nat, bytes@),
{
    let mut rng = seeded(seed);
    let ghost first = rng;
    let mut bytes: Vec<u8> = Vec::with_capacity(n);
    let mut i: usize = 0;
    while i < n
        invariant
            i <= n,
            bytes@.len() == i,
            draws_bytes(first, bytes@, rng),
        decreases n - i,
    {
        let ghost before = bytes@;
        let ghost mid = rng;
        let byte: u8 = draw_byte(&mut rng);
        bytes.push(byte);
        assert(bytes@.drop_last() =~= before);
        assert(draws_byte(mid, bytes@.last(), rng));
        i += 1;
    }
    bytes
}

/// The snippet that the synthetic code repeats.
pub open spec fn code_snippet() -> Seq<char> {
    "fn main() { let x = 42; println!(\"{}\", x); } "@
}

/// Code-like text.
pub fn make_code(n: usize) -> (bytes: Vec<u8>)
    ensures
        bytes@ == repeated(code_snippet(), n as nat),
{
    proof {
        reveal_strlit("fn main() { let x = 42; println!(\"{}\", x); } ");
    }
    repeat_text("fn main() { let x = 42; println!(\"{}\", x); } ", n)
}

/// The templates of the Python-like corpus, in their order.
pub open spec fn code_templates() -> Seq<Seq<char>> {
    seq![
        "def foo(x):\n    return x * 2\n"@,
        "for i in range(10):\n    print(i)\n"@,
        "class MyClass:\n    def __init__(self):\n        self.val = 0\n"@,
        "import numpy as np\nx = np.zeros(100)\n"@,
        "if x > 0:\n    result = x\nelse:\n    result = -x\n"@,
    ]
}

/// The template that byte `i` of the Python-like corpus comes from. The corpus reads its
/// current template at the byte's own position, modulo the template's length, and goes on to
/// the next template wherever the following position is a multiple of that length.
pub open spec fn code_template_at(i: nat) -> nat
    decreases i,
{
    if i == 0 {
        0
    } else {
        let before = code_template_at((i - 1) as nat);
        if i % code_templates()[before as int].len() == 0 {
            if before == 4 {
                0
            } else {
                before + 1
            }
        } else {
            before
        }
    }
}

/// Byte `i` of the Python-like corpus.
pub open spec fn code_byte(i: nat) -> u8 {
    let template = code_templates()[code_template_at(i) as int];
    template[(i % template.len()) as int] as u8
}

/// The templates of the Python-like corpus as bytes.
fn code_template(t: usize) -> (bytes: &'static [u8])
    requires
        t < 5,
    ensures
        bytes@ == Seq::new(
            code_templates()[t as int].len(),
            |i: int| code_templates()[t as int][i] as u8,
        ),
        bytes@.len() > 0,
{
    proof {
        reveal_strlit("def foo(x):\n    return x * 2\n");
        reveal_strlit("for i in range(10):\n    print(i)\n");
        reveal_strlit("class MyClass:\n    def __init__(self):\n        self.val = 0\n");
        reveal_strlit("import numpy as np\nx = np.zeros(100)\n");
        reveal_strlit("if x > 0:\n    result = x\nelse:\n    result = -x\n");
    }
    let text = if t == 0 {
        "def foo(x):\n    return x * 2\n"
    } else if t == 1 {
        "for i in range(10):\n    print(i)\n"
    } else if t == 2 {
        "class MyClass:\n    def __init__(self):\n        self.val = 0\n"
    } else if t == 3 {
        "import numpy as np\nx = np.zeros(100)\n"
    } else {
        "if x > 0:\n    result = x\nelse:\n    result = -x\n"
    };
    assert(text.is_ascii());
    text.as_bytes()
}

/// Generate a simple synthetic domain-shift test corpus (Python-like code).
pub fn make_code_corpus(n: usize) -> (bytes: Vec<u8>)
    ensures
        bytes@ == Seq::new(n as nat, |i: int| code_byte(i as nat)),
{
    let mut out: Vec<u8> = Vec::with_capacity(n);
    let mut t: usize = 0;
    while out.len() < n
        invariant
            out@.len() <= n,
            t < 5,
            t == code_template_at(out@.len()),
            forall|i: int| 0 <= i < out@.len() ==> #[trigger] out@[i] == code_byte(i as nat),
        decreases n - out@.len(),
    {
        let i: usize = out.len();
        let template = code_template(t);
        assert(0 <= i as int % (template@.len() as int) < template@.len());
        out.push(template[i % template.len()]);
        assert(out@[i as int] == code_byte(i as nat));
        if (i + 1) % template.len() == 0 {
            t = if t == 4 { 0 } else { t + 1 };
        }
    }
    assert(out@ =~= Seq::new(n as nat, |i: int| code_byte(i as nat)));
    out
}

} // verus!
