//! The step bound of a function as a compile gate.
//!
//! Checked for a function that opts in:
//! - structure: no bare `loop`, no `while`/`while let` (the honest form is
//!   `for _ in 0..len_snapshot` with early `break`), and `for` must iterate a range
//!   (`..`/`..=`);
//! - numeric bound: the deepest loop nest whose trip counts are literals or UPPER_CASE
//!   constants gets an assertion that their product keeps the bound. Nests of literals alone
//!   are multiplied out here.
//!
//! Trip counts of runtime-bounded snapshot loops (e.g. `0..len`) and sequential siblings are
//! not counted: the bound covers the deepest single nest.

use vstd::prelude::*;
use crate::text::{
    chars_of, decimal, decimal_text, join, joined, parse_u128, same_text, texts,
    u128_of,
};

verus! {

/// The brackets round a group of tokens.
#[derive(Debug, Clone, Copy, PartialEq, Eq, Structural)]
pub enum Bracket {
    Parenthesis,
    Brace,
    Square,
    Invisible,
}

/// A token of source text, or a bracketed group of them.
#[derive(Debug)]
pub enum Token {
    Ident(String),
    Literal(String),
    Punct(char),
    Group { bracket: Bracket, tokens: Vec<Token> },
}

/// The text of a token that is no group.
pub open spec fn text(t: Token) -> Seq<char> {
    match t {
        Token::Ident(s) => s@,
        Token::Literal(s) => s@,
        Token::Punct(c) => seq![c],
        Token::Group { .. } => Seq::empty(),
    }
}

/// Whether a token is a full stop.
pub open spec fn is_dot(t: Token) -> bool {
    t == Token::Punct('.')
}

/// Whether a token is the word or sign `word`.
pub open spec fn is_word(t: Token, word: Seq<char>) -> bool {
    !(t is Group) && text(t) == word
}

/// Whether a token prints as the word or sign `word`: a group without brackets prints as what it
/// holds.
pub open spec fn prints_as(t: Token, word: Seq<char>) -> bool
    decreases t,
{
    match t {
        Token::Group { bracket, tokens } => bracket == Bracket::Invisible && tokens@.len() == 1
            && prints_as(tokens@[0], word),
        _ => text(t) == word,
    }
}

/// Whether a token is a group in the given brackets.
pub open spec fn is_group(t: Token, bracket: Bracket) -> bool {
    t matches Token::Group { bracket: b, .. } && b == bracket
}

/// Two full stops at `a` and `b`, with nothing but equals signs between them.
pub open spec fn dots_across_equals(tokens: Seq<Token>, a: int, b: int) -> bool {
    &&& 0 <= a < b < tokens.len()
    &&& is_dot(tokens[a])
    &&& is_dot(tokens[b])
    &&& forall|m: int| a < m < b ==> prints_as(#[trigger] tokens[m], "="@)
}

/// Two full stops side by side, at `a` and behind it.
pub open spec fn dots_at(tokens: Seq<Token>, a: int) -> bool {
    &&& 0 <= a
    &&& a + 1 < tokens.len()
    &&& is_dot(tokens[a])
    &&& is_dot(tokens[a + 1])
}

/// A parenthesised group at `a` that holds a range.
pub open spec fn parenthesised_range_at(tokens: Seq<Token>, a: int) -> bool {
    &&& 0 <= a < tokens.len()
    &&& is_group(tokens[a], Bracket::Parenthesis)
    &&& exists|x: int, y: int| #[trigger] dots_across_equals(tokens[a]->tokens@, x, y)
}

/// Whether a loop header iterates a range: one written out, or one inside a parenthesised
/// iterable, which is searched one level deep.
pub open spec fn has_range(header: Seq<Token>) -> bool {
    ||| exists|a: int| #[trigger] dots_at(header, a)
    ||| exists|a: int| #[trigger] parenthesised_range_at(header, a)
}

/// The position of the first two full stops side by side from `k` on.
pub open spec fn first_dots(header: Seq<Token>, k: int) -> Option<int>
    decreases header.len() - k,
{
    if k < 0 || k + 1 >= header.len() {
        None
    } else if dots_at(header, k) {
        Some(k)
    } else {
        first_dots(header, k + 1)
    }
}

/// Trip-count factor of a range `for`: the token after the first `..` / `..=`, when it is a
/// literal or a simple identifier.
pub open spec fn trip_count(header: Seq<Token>) -> Option<Seq<char>> {
    match first_dots(header, 0) {
        None => None,
        Some(k) => {
            let e = if k + 2 < header.len() && prints_as(header[k + 2], "="@) {
                k + 3
            } else {
                k + 2
            };
            if e < header.len() && (header[e] is Ident || header[e] is Literal) {
                Some(text(header[e]))
            } else {
                None
            }
        },
    }
}

/// The position of the first braced group from `k` on, or the end where there is none.
pub open spec fn brace_from(tokens: Seq<Token>, k: int) -> int
    decreases tokens.len() - k,
{
    if k < 0 || k >= tokens.len() {
        tokens.len() as int
    } else if is_group(tokens[k], Bracket::Brace) {
        k
    } else {
        brace_from(tokens, k + 1)
    }
}

/// What is wrong with the structure of a function.
pub open spec fn loop_error() -> Seq<char> {
    "unbounded `loop` in a #[bounded] function"@
}

/// What is wrong with the structure of a function.
pub open spec fn while_error() -> Seq<char> {
    "`while` in a #[bounded] function: use `for _ in 0..len_snapshot` with early `break`"@
}

/// What is wrong with the structure of a function.
pub open spec fn for_error() -> Seq<char> {
    "`for` over a non-range iterator in a #[bounded] function"@
}

/// What a scan finds: errors, and one chain per `for` loop, its trip-count factors from the
/// outermost enclosing loop to its own.
pub struct Findings {
    pub errors: Seq<Seq<char>>,
    pub chains: Seq<Seq<Seq<char>>>,
}

impl Findings {
    pub open spec fn none() -> Findings {
        Findings { errors: Seq::empty(), chains: Seq::empty() }
    }

    pub open spec fn error(e: Seq<char>) -> Findings {
        Findings { errors: seq![e], chains: Seq::empty() }
    }

    /// These findings, followed by others.
    pub open spec fn followed_by(self, next: Findings) -> Findings {
        Findings { errors: self.errors + next.errors, chains: self.chains + next.chains }
    }
}

/// What a `for` loop with this header contributes of its own, under the factors of the loops
/// round it.
pub open spec fn for_findings(header: Seq<Token>, chain: Seq<Seq<char>>) -> Findings {
    Findings {
        errors: if has_range(header) {
            Seq::empty()
        } else {
            seq![for_error()]
        },
        chains: if chain.len() > 0 {
            seq![chain]
        } else {
            Seq::empty()
        },
    }
}

/// The factors of a loop with this header, under those of the loops round it.
pub open spec fn with_trip_count(
    factors: Seq<Seq<char>>,
    header: Seq<Token>,
) -> Seq<Seq<char>> {
    match trip_count(header) {
        Some(f) => factors.push(f),
        None => factors,
    }
}

/// What a scan of `tokens` from `i` on finds, inside loops with the given factors. Groups are
/// entered; a `for` runs to its body, the first braced group, and its header is not entered.
pub open spec fn findings(tokens: Seq<Token>, i: int, factors: Seq<Seq<char>>) -> Findings
    decreases tokens, tokens.len() - i,
{
    if i < 0 || i >= tokens.len() {
        Findings::none()
    } else if tokens[i] is Group {
        findings(tokens[i]->tokens@, 0, factors).followed_by(findings(tokens, i + 1, factors))
    } else if text(tokens[i]) == "loop"@ {
        Findings::error(loop_error()).followed_by(findings(tokens, i + 1, factors))
    } else if text(tokens[i]) == "while"@ {
        Findings::error(while_error()).followed_by(findings(tokens, i + 1, factors))
    } else if text(tokens[i]) == "for"@ {
        let j = brace_from(tokens, i + 1);
        let chain = with_trip_count(factors, tokens.subrange(i + 1, j));
        let own = for_findings(tokens.subrange(i + 1, j), chain);
        if i < j < tokens.len() && tokens[j] is Group {
            own.followed_by(findings(tokens[j]->tokens@, 0, chain)).followed_by(
                findings(tokens, j + 1, factors),
            )
        } else {
            own
        }
    } else {
        findings(tokens, i + 1, factors)
    }
}

/// The errors and the chains of a scan.
pub struct ScanState {
    pub errors: Vec<String>,
    /// One entry per `for` loop: enclosing trip-count factors × own.
    pub chains: Vec<Vec<String>>,
}

/// The texts of some chains.
pub open spec fn chain_texts(chains: Seq<Vec<String>>) -> Seq<Seq<Seq<char>>> {
    chains.map_values(|c: Vec<String>| texts(c@))
}

impl View for ScanState {
    type V = Findings;

    open spec fn view(&self) -> Findings {
        Findings { errors: texts(self.errors@), chains: chain_texts(self.chains@) }
    }
}

/// Whether a token is a full stop.
pub fn is_punct_dot(t: &Token) -> (dot: bool)
    ensures
        dot <==> is_dot(*t),
{
    match t {
        Token::Punct(c) => *c == '.',
        _ => false,
    }
}

/// Whether a token is the word or sign `word`.
fn token_is(t: &Token, word: &str) -> (same: bool)
    ensures
        same <==> is_word(*t, word@),
{
    match t {
        Token::Ident(s) => same_text(s, word),
        Token::Literal(s) => same_text(s, word),
        Token::Punct(c) => {
            let same = word.unicode_len() == 1 && word.get_char(0) == *c;
            assert(same ==> text(*t) =~= word@);
            same
        },
        Token::Group { .. } => false,
    }
}

/// Whether a token prints as the word or sign `word`.
fn token_prints_as(t: &Token, word: &str) -> (same: bool)
    ensures
        same <==> prints_as(*t, word@),
    decreases *t,
{
    match t {
        Token::Group { bracket, tokens } => {
            *bracket == Bracket::Invisible && tokens.len() == 1 && token_prints_as(
                &tokens[0],
                word,
            )
        },
        _ => token_is(t, word),
    }
}

/// Whether a group of tokens holds two full stops with nothing but equals signs between them.
fn inner_range(inner: &[Token]) -> (found: bool)
    ensures
        found <==> exists|x: int, y: int| #[trigger] dots_across_equals(inner@, x, y),
{
    let mut open = false;
    let ghost mut at: int = 0;
    let mut i: usize = 0;
    while i < inner.len()
        invariant
            i <= inner@.len(),
            open ==> 0 <= at < i && is_dot(inner@[at]) && forall|m: int|
                at < m < i ==> prints_as(#[trigger] inner@[m], "="@),
            !open ==> forall|x: int|
                0 <= x < i && is_dot(#[trigger] inner@[x]) ==> exists|m: int|
                    x < m < i && !prints_as(#[trigger] inner@[m], "="@),
            open ==> forall|x: int|
                0 <= x < at && is_dot(#[trigger] inner@[x]) ==> exists|m: int|
                    x < m < at && !prints_as(#[trigger] inner@[m], "="@),
            forall|x: int, y: int| y < i ==> !#[trigger] dots_across_equals(inner@, x, y),
        decreases inner@.len() - i,
    {
        let t = &inner[i];
        proof {
            reveal_strlit("=");
        }
        if is_punct_dot(t) {
            if open {
                assert(dots_across_equals(inner@, at, i as int));
                return true;
            }
            assert forall|x: int, y: int| y < i + 1 implies !#[trigger] dots_across_equals(
                inner@,
                x,
                y,
            ) by {
                if y == i && 0 <= x < i && is_dot(inner@[x]) {
                    let m = choose|m: int| x < m < i && !prints_as(#[trigger] inner@[m], "="@);
                    assert(!prints_as(inner@[m], "="@));
                }
            }
            open = true;
            proof {
                at = i as int;
            }
        } else if !token_prints_as(t, "=") {
            assert(!prints_as(inner@[i as int], "="@));
            open = false;
        }
        i += 1;
    }
    false
}

/// The loop header runs from `for` to its body; a parenthesised iterable is
/// searched one level deep.
pub fn header_has_range(header: &[Token]) -> (found: bool)
    ensures
        found <==> has_range(header@),
{
    let mut prev_dot = false;
    let mut i: usize = 0;
    while i < header.len()
        invariant
            i <= header@.len(),
            prev_dot <==> i > 0 && is_dot(header@[i - 1]),
            forall|a: int| a + 1 < i ==> !#[trigger] dots_at(header@, a),
            forall|a: int| a < i ==> !#[trigger] parenthesised_range_at(header@, a),
        decreases header@.len() - i,
    {
        match &header[i] {
            Token::Group { bracket: Bracket::Parenthesis, tokens } => {
                if inner_range(tokens.as_slice()) {
                    assert(parenthesised_range_at(header@, i as int));
                    return true;
                }
                prev_dot = false;
            },
            other => {
                if is_punct_dot(other) {
                    if prev_dot {
                        assert(dots_at(header@, i - 1));
                        return true;
                    }
                    prev_dot = true;
                } else {
                    prev_dot = false;
                }
            },
        }
        i += 1;
    }
    false
}

/// Trip-count factor of a range `for`: the token after `..` / `..=`, when it
/// is a literal or a simple identifier.
pub fn range_end_expr(header: &[Token]) -> (factor: Option<String>)
    ensures
        match factor {
            Some(f) => trip_count(header@) == Some(f@),
            None => trip_count(header@) is None,
        },
{
    let mut k: usize = 0;
    while k < header.len() && k + 1 < header.len()
        invariant
            k <= header@.len(),
            first_dots(header@, 0) == first_dots(header@, k as int),
        decreases header@.len() - k,
    {
        if is_punct_dot(&header[k]) && is_punct_dot(&header[k + 1]) {
            let mut e: usize = k + 2;
            if e < header.len() && token_prints_as(&header[e], "=") {
                e += 1;
            }
            if e >= header.len() {
                return None;
            }
            return match &header[e] {
                Token::Literal(s) => Some(s.clone()),
                Token::Ident(s) => Some(s.clone()),
                _ => None,
            };
        }
        k += 1;
    }
    None
}

proof fn lemma_brace_from(tokens: Seq<Token>, k: int)
    requires
        0 <= k <= tokens.len(),
    ensures
        k <= brace_from(tokens, k) <= tokens.len(),
        brace_from(tokens, k) < tokens.len() ==> is_group(
            tokens[brace_from(tokens, k)],
            Bracket::Brace,
        ),
        forall|m: int|
            k <= m < brace_from(tokens, k) ==> !is_group(#[trigger] tokens[m], Bracket::Brace),
    decreases tokens.len() - k,
{
    if k < tokens.len() && !is_group(tokens[k], Bracket::Brace) {
        lemma_brace_from(tokens, k + 1);
    }
}

/// The first braced group from `k` on, or the end where there is none.
fn find_brace(tokens: &[Token], k: usize) -> (j: usize)
    requires
        k <= tokens.len(),
    ensures
        j == brace_from(tokens@, k as int),
{
    let mut j: usize = k;
    while j < tokens.len()
        invariant
            k <= j <= tokens@.len(),
            brace_from(tokens@, k as int) == brace_from(tokens@, j as int),
        decreases tokens@.len() - j,
    {
        if let Token::Group { bracket: Bracket::Brace, .. } = &tokens[j] {
            return j;
        }
        j += 1;
    }
    j
}

proof fn lemma_followed_by_is_associative(a: Findings, b: Findings, c: Findings)
    ensures
        a.followed_by(b).followed_by(c) == a.followed_by(b.followed_by(c)),
{
    assert((a.errors + b.errors) + c.errors =~= a.errors + (b.errors + c.errors));
    assert((a.chains + b.chains) + c.chains =~= a.chains + (b.chains + c.chains));
}

proof fn lemma_followed_by_none(a: Findings)
    ensures
        a.followed_by(Findings::none()) == a,
{
    assert(a.errors + Seq::<Seq<char>>::empty() =~= a.errors);
    assert(a.chains + Seq::<Seq<Seq<char>>>::empty() =~= a.chains);
}

/// A copy of some strings.
fn copy_strings(strings: &[String]) -> (copy: Vec<String>)
    ensures
        texts(copy@) == texts(strings@),
{
    let mut copy: Vec<String> = Vec::new();
    let mut i: usize = 0;
    while i < strings.len()
        invariant
            i <= strings@.len(),
            texts(copy@) == texts(strings@).take(i as int),
        decreases strings@.len() - i,
    {
        let ghost before = copy@;
        copy.push(strings[i].clone());
        assert(texts(copy@) =~= texts(before).push(strings@[i as int]@));
        i += 1;
        assert(texts(copy@) =~= texts(strings@).take(i as int));
    }
    assert(texts(strings@).take(i as int) =~= texts(strings@));
    copy
}

impl ScanState {
    /// A scan that has found nothing yet.
    pub fn new() -> (st: Self)
        ensures
            st@ == Findings::none(),
    {
        let st = ScanState { errors: Vec::new(), chains: Vec::new() };
        assert(texts(st.errors@) =~= Seq::<Seq<char>>::empty());
        assert(chain_texts(st.chains@) =~= Seq::<Seq<Seq<char>>>::empty());
        st
    }

    fn push_error(&mut self, error: &str)
        ensures
            final(self)@ == old(self)@.followed_by(Findings::error(error@)),
    {
        self.errors.push(error.to_owned());
        assert(self@.errors =~= old(self)@.errors + seq![error@]);
        assert(self@.chains =~= old(self)@.chains + Seq::<Seq<Seq<char>>>::empty());
    }

    fn push_chain(&mut self, chain: Vec<String>)
        ensures
            final(self)@ == old(self)@.followed_by(
                Findings { errors: Seq::empty(), chains: seq![texts(chain@)] },
            ),
    {
        self.chains.push(chain);
        assert(self@.errors =~= old(self)@.errors + Seq::<Seq<char>>::empty());
        assert(self@.chains =~= old(self)@.chains + seq![texts(chain@)]);
    }
}

/// Record a `for` loop with this header; the result is its chain of factors.
fn scan_header(header: &[Token], factors: &[String], st: &mut ScanState) -> (child: Vec<String>)
    ensures
        texts(child@) == with_trip_count(texts(factors@), header@),
        final(st)@ == old(st)@.followed_by(for_findings(header@, texts(child@))),
{
    let ghost before = st@;
    if !header_has_range(header) {
        st.push_error("`for` over a non-range iterator in a #[bounded] function");
    }
    let mut child = copy_strings(factors);
    if let Some(f) = range_end_expr(header) {
        child.push(f);
        assert(texts(child@) =~= texts(factors@).push(f@));
    }
    if child.len() > 0 {
        let chain = copy_strings(child.as_slice());
        st.push_chain(chain);
    }
    proof {
        let own = for_findings(header@, texts(child@));
        assert(st@.errors =~= before.errors + own.errors);
        assert(st@.chains =~= before.chains + own.chains);
    }
    child
}

/// Collect the errors and the loop chains of `tokens`, inside loops with the given factors.
pub fn scan(tokens: &[Token], factors: &[String], st: &mut ScanState)
    ensures
        final(st)@ == old(st)@.followed_by(findings(tokens@, 0, texts(factors@))),
    decreases tokens@,
{
    let ghost fs = texts(factors@);
    let ghost whole = old(st)@.followed_by(findings(tokens@, 0, fs));
    let mut i: usize = 0;
    while i < tokens.len()
        invariant
            i <= tokens@.len(),
            fs == texts(factors@),
            whole == st@.followed_by(findings(tokens@, i as int, fs)),
        decreases tokens@.len() - i,
    {
        let t = &tokens[i];
        let ghost before = st@;
        let ghost rest = findings(tokens@, i + 1, fs);
        if let Token::Group { tokens: inner, .. } = t {
            proof {
                lemma_followed_by_is_associative(before, findings(inner@, 0, fs), rest);
            }
            scan(inner.as_slice(), factors, st);
            i += 1;
            continue;
        }
        if token_is(t, "loop") {
            proof {
                lemma_followed_by_is_associative(before, Findings::error(loop_error()), rest);
            }
            st.push_error("unbounded `loop` in a #[bounded] function");
        } else if token_is(t, "while") {
            proof {
                lemma_followed_by_is_associative(before, Findings::error(while_error()), rest);
            }
            st.push_error(
                "`while` in a #[bounded] function: use `for _ in 0..len_snapshot` with early `break`",
            );
        } else if token_is(t, "for") {
            let j: usize = find_brace(tokens, i + 1);
            proof {
                lemma_brace_from(tokens@, i + 1);
            }
            let header = vstd::slice::slice_subrange(tokens, i + 1, j);
            let ghost own = for_findings(header@, with_trip_count(fs, header@));
            let child = scan_header(header, factors, st);
            let ghost chain = texts(child@);
            if j < tokens.len() {
                if let Token::Group { tokens: body, .. } = &tokens[j] {
                    proof {
                        let inside = findings(body@, 0, chain);
                        let after = findings(tokens@, j + 1, fs);
                        lemma_followed_by_is_associative(before, own, inside);
                        lemma_followed_by_is_associative(before, own.followed_by(inside), after);
                    }
                    scan(body.as_slice(), child.as_slice(), st);
                }
                i = j + 1;
            } else {
                proof {
                    lemma_followed_by_none(st@);
                }
                i = j;
            }
            continue;
        }
        i += 1;
    }
    proof {
        lemma_followed_by_none(st@);
    }
}

/// The first number that the literals of an attribute write, digit separators aside.
pub open spec fn bound_from(attr: Seq<Token>, k: int) -> Option<u128>
    decreases attr.len() - k,
{
    if k < 0 || k >= attr.len() {
        None
    } else {
        match attr[k] {
            Token::Literal(s) => match u128_of(without_separators(s@)) {
                Some(n) => Some(n),
                None => bound_from(attr, k + 1),
            },
            _ => bound_from(attr, k + 1),
        }
    }
}

/// A text without its underscores.
pub open spec fn without_separators(s: Seq<char>) -> Seq<char> {
    s.filter(|c: char| c != '_')
}

/// A text without its underscores.
fn strip_separators(s: &str) -> (stripped: String)
    ensures
        stripped@ == without_separators(s@),
{
    let n: usize = s.unicode_len();
    let mut stripped = String::new();
    let mut i: usize = 0;
    while i < n
        invariant
            i <= n,
            n == s@.len(),
            stripped@ == without_separators(s@.take(i as int)),
        decreases n - i,
    {
        proof {
            reveal(Seq::filter);
            assert(s@.take(i + 1).drop_last() =~= s@.take(i as int));
        }
        if s.get_char(i) != '_' {
            stripped.append(s.substring_char(i, i + 1));
            assert(stripped@ =~= without_separators(s@.take(i as int)).push(s@[i as int]));
        }
        i += 1;
    }
    assert(s@.take(i as int) =~= s@);
    stripped
}

/// The bound that an attribute declares.
pub fn parse_bound(attr: &[Token]) -> (bound: Option<u128>)
    ensures
        bound == bound_from(attr@, 0),
{
    let mut k: usize = 0;
    while k < attr.len()
        invariant
            k <= attr@.len(),
            bound_from(attr@, 0) == bound_from(attr@, k as int),
        decreases attr@.len() - k,
    {
        if let Token::Literal(s) = &attr[k] {
            let n = parse_u128(strip_separators(s.as_str()).as_str());
            if n.is_some() {
                return n;
            }
        }
        k += 1;
    }
    None
}

/// Whether a factor is a literal or an UPPER_CASE constant.
pub open spec fn is_constant(factor: Seq<char>) -> bool {
    factor.len() > 0 && forall|i: int|
        0 <= i < factor.len() ==> ('A' <= #[trigger] factor[i] <= 'Z' || '0' <= factor[i] <= '9'
            || factor[i] == '_')
}

/// Whether a chain is made entirely of literals or UPPER_CASE constants.
pub open spec fn is_provable(chain: Seq<Seq<char>>) -> bool {
    forall|i: int| 0 <= i < chain.len() ==> is_constant(#[trigger] chain[i])
}

/// Whether `k` is the deepest provable chain, the last one where several are as deep.
pub open spec fn is_deepest(chains: Seq<Seq<Seq<char>>>, k: int) -> bool {
    &&& 0 <= k < chains.len()
    &&& is_provable(chains[k])
    &&& forall|j: int|
        0 <= j < k && is_provable(#[trigger] chains[j]) ==> chains[j].len() <= chains[k].len()
    &&& forall|j: int|
        k < j < chains.len() && is_provable(#[trigger] chains[j]) ==> chains[j].len()
            < chains[k].len()
}

/// The deepest provable chain.
pub open spec fn deepest(chains: Seq<Seq<Seq<char>>>) -> Option<Seq<Seq<char>>> {
    if exists|k: int| is_deepest(chains, k) {
        Some(chains[choose|k: int| is_deepest(chains, k)])
    } else {
        None
    }
}

/// There is a deepest provable chain wherever there is a provable one.
pub proof fn deepest_exists_where_one_is_provable(chains: Seq<Seq<Seq<char>>>)
    ensures
        deepest(chains) is Some <==> exists|k: int|
            0 <= k < chains.len() && is_provable(#[trigger] chains[k]),
{
    if exists|k: int| 0 <= k < chains.len() && is_provable(#[trigger] chains[k]) {
        lemma_deepest_exists(chains, chains.len() as int);
        assert(chains.take(chains.len() as int) =~= chains);
        let k = choose|k: int| is_deepest(chains.take(chains.len() as int), k);
        assert(is_deepest(chains, k));
    }
    if deepest(chains) is Some {
        let k = choose|k: int| is_deepest(chains, k);
        assert(is_provable(chains[k]));
    }
}

proof fn lemma_deepest_exists(chains: Seq<Seq<Seq<char>>>, n: int)
    requires
        0 <= n <= chains.len(),
        exists|k: int| 0 <= k < n && is_provable(#[trigger] chains[k]),
    ensures
        exists|k: int| is_deepest(chains.take(n), k),
    decreases n,
{
    let last = n - 1;
    if exists|k: int| 0 <= k < last && is_provable(#[trigger] chains[k]) {
        lemma_deepest_exists(chains, last);
        let k = choose|k: int| is_deepest(chains.take(last), k);
        if is_provable(chains[last]) && chains[last].len() >= chains[k].len() {
            assert forall|j: int| 0 <= j < last && is_provable(#[trigger] chains.take(n)[j]) implies
                chains.take(n)[j].len() <= chains[last].len() by {
                assert(chains.take(last)[j] == chains[j]);
            }
            assert(is_deepest(chains.take(n), last));
        } else {
            assert forall|j: int|
                0 <= j < k && is_provable(#[trigger] chains.take(n)[j]) implies chains.take(
                n,
            )[j].len() <= chains[k].len() by {
                assert(chains.take(last)[j] == chains[j]);
            }
            assert forall|j: int|
                k < j < n && is_provable(#[trigger] chains.take(n)[j]) implies chains.take(
                n,
            )[j].len() < chains[k].len() by {
                if j < last {
                    assert(chains.take(last)[j] == chains[j]);
                }
            }
            assert(is_deepest(chains.take(n), k));
        }
    } else {
        assert(is_provable(chains[last]));
        assert forall|j: int| 0 <= j < last implies !is_provable(#[trigger] chains.take(n)[j]) by {
            assert(chains.take(n)[j] == chains[j]);
        }
        assert(is_deepest(chains.take(n), last));
    }
}

proof fn lemma_deepest_is_unique(chains: Seq<Seq<Seq<char>>>, k: int)
    requires
        is_deepest(chains, k),
    ensures
        deepest(chains) == Some(chains[k]),
{
    let c = choose|c: int| is_deepest(chains, c);
    assert(is_deepest(chains, c));
    if c != k {
        assert(is_provable(chains[c]) && is_provable(chains[k]));
    }
}

/// Whether a factor is a literal or an UPPER_CASE constant.
fn factor_is_constant(factor: &str) -> (constant: bool)
    ensures
        constant <==> is_constant(factor@),
{
    let chars = chars_of(factor);
    let mut i: usize = 0;
    while i < chars.len()
        invariant
            i <= chars@.len(),
            chars@ == factor@,
            forall|k: int|
                0 <= k < i ==> ('A' <= #[trigger] factor@[k] <= 'Z' || '0' <= factor@[k] <= '9'
                    || factor@[k] == '_'),
        decreases chars@.len() - i,
    {
        let c: char = chars[i];
        if !(('A' <= c && c <= 'Z') || ('0' <= c && c <= '9') || c == '_') {
            assert(!('A' <= factor@[i as int] <= 'Z'));
            return false;
        }
        i += 1;
    }
    chars.len() > 0
}

/// Whether a chain is made entirely of literals or UPPER_CASE constants.
fn chain_is_provable(chain: &[String]) -> (provable: bool)
    ensures
        provable <==> is_provable(texts(chain@)),
{
    let mut i: usize = 0;
    while i < chain.len()
        invariant
            i <= chain@.len(),
            forall|k: int| 0 <= k < i ==> is_constant(#[trigger] texts(chain@)[k]),
        decreases chain@.len() - i,
    {
        assert(texts(chain@)[i as int] == chain@[i as int]@);
        if !factor_is_constant(chain[i].as_str()) {
            return false;
        }
        i += 1;
    }
    true
}

impl ScanState {
    /// Deepest nest made entirely of literals or UPPER_CASE (const) factors.
    pub fn deepest_provable(&self) -> (factors: Option<Vec<String>>)
        ensures
            match factors {
                Some(f) => deepest(self@.chains) == Some(texts(f@)),
                None => deepest(self@.chains) is None,
            },
    {
        let ghost chains = self@.chains;
        let mut best: Option<usize> = None;
        let mut i: usize = 0;
        while i < self.chains.len()
            invariant
                i <= self.chains@.len(),
                chains == chain_texts(self.chains@),
                match best {
                    Some(k) => is_deepest(chains.take(i as int), k as int),
                    None => forall|j: int| 0 <= j < i ==> !is_provable(#[trigger] chains[j]),
                },
            decreases self.chains@.len() - i,
        {
            assert(chains[i as int] == texts(self.chains@[i as int]@));
            let ghost shown = chains.take(i + 1);
            assert forall|j: int| 0 <= j < i implies #[trigger] shown[j] == chains.take(
                i as int,
            )[j] by {}
            if chain_is_provable(self.chains[i].as_slice()) {
                match best {
                    Some(k) => {
                        assert(chains.take(i as int)[k as int] == texts(self.chains@[k as int]@));
                        if self.chains[i].len() >= self.chains[k].len() {
                            best = Some(i);
                        }
                        assert(shown[k as int] == chains[k as int]);
                    },
                    None => {
                        best = Some(i);
                    },
                }
                assert(is_deepest(shown, best->0 as int));
            } else {
                assert(best is Some ==> is_deepest(shown, best->0 as int));
            }
            i += 1;
        }
        assert(chains.take(i as int) =~= chains);
        match best {
            Some(k) => {
                proof {
                    lemma_deepest_is_unique(chains, k as int);
                    assert(chains[k as int] == texts(self.chains@[k as int]@));
                }
                Some(copy_strings(self.chains[k].as_slice()))
            },
            None => {
                proof {
                    deepest_exists_where_one_is_provable(chains);
                }
                None
            },
        }
    }
}

/// Whether every factor is a number.
pub open spec fn all_literal(factors: Seq<Seq<char>>) -> bool {
    forall|i: int| 0 <= i < factors.len() ==> u128_of(#[trigger] factors[i]) is Some
}

/// The product of literal factors.
pub open spec fn product(factors: Seq<Seq<char>>) -> nat
    decreases factors.len(),
{
    if factors.len() == 0 {
        1
    } else {
        product(factors.drop_last()) * (u128_of(factors.last())->0 as nat)
    }
}

/// Text made safe inside a string literal: backslashes and quotes are escaped.
pub open spec fn escaped(s: Seq<char>) -> Seq<char>
    decreases s.len(),
{
    if s.len() == 0 {
        Seq::empty()
    } else {
        let front = escaped(s.drop_last());
        if s.last() == '\\' || s.last() == '"' {
            front.push('\\').push(s.last())
        } else {
            front.push(s.last())
        }
    }
}

/// The error on a nest of literals that multiplies out to more than the bound. The product itself
/// is shown where it fits in 128 bits.
pub open spec fn excess(factors: Seq<Seq<char>>, n: u128) -> Seq<char> {
    let nest = "deepest loop nest "@ + joined(factors, " * "@);
    let shown = if product(factors) <= u128::MAX {
        nest + " = "@ + decimal(product(factors))
    } else {
        nest
    };
    shown + " exceeds the declared bound "@ + decimal(n as nat)
}

/// The errors of a function under the bound `n`: those of its structure, and one where the
/// deepest nest is of literals alone and multiplies out to more than the bound.
pub open spec fn all_errors(found: Findings, n: u128) -> Seq<Seq<char>> {
    match deepest(found.chains) {
        Some(f) => if all_literal(f) && product(f) > n {
            found.errors.push(excess(f, n))
        } else {
            found.errors
        },
        None => found.errors,
    }
}

/// The assertion on a deepest nest that has constants among its factors.
pub open spec fn const_assertion(found: Findings, n: u128) -> Seq<char> {
    match deepest(found.chains) {
        Some(f) => if all_literal(f) {
            Seq::empty()
        } else {
            "const _: () = assert!(("@ + joined(f, " * "@) + ") <= "@ + decimal(n as nat) + ");"@
        },
        None => Seq::empty(),
    }
}

/// The statement that stops the compilation with the given errors, if there are any.
pub open spec fn error_statement(errors: Seq<Seq<char>>) -> Seq<char> {
    if errors.len() > 0 {
        "::core::compile_error!(\""@ + escaped(joined(errors, "; "@)) + "\");"@
    } else {
        Seq::empty()
    }
}

/// The statements that belong at the top of the body of a function whose attribute and item
/// are given.
pub open spec fn gate(attr: Seq<Token>, item: Seq<Token>) -> Seq<char> {
    match bound_from(attr, 0) {
        None =>
        "::core::compile_error!(\"#[bounded] requires a numeric bound, e.g. #[bounded(64)]\");"@,
        Some(n) => {
            let found = findings(item, 0, Seq::empty());
            const_assertion(found, n) + error_statement(all_errors(found, n))
        },
    }
}

/// Text made safe inside a string literal.
fn escape(s: &str) -> (out: String)
    ensures
        out@ == escaped(s@),
{
    proof {
        reveal_strlit("\\\\");
        reveal_strlit("\\\"");
    }
    let n: usize = s.unicode_len();
    let mut out = String::new();
    let mut i: usize = 0;
    while i < n
        invariant
            i <= n,
            n == s@.len(),
            out@ == escaped(s@.take(i as int)),
        decreases n - i,
    {
        let c: char = s.get_char(i);
        let ghost front = out@;
        assert(s@.take(i + 1).drop_last() =~= s@.take(i as int));
        if c == '\\' {
            proof {
                reveal_strlit("\\\\");
            }
            out.append("\\\\");
            assert(out@ =~= front.push('\\').push('\\'));
        } else if c == '"' {
            proof {
                reveal_strlit("\\\"");
            }
            out.append("\\\"");
            assert(out@ =~= front.push('\\').push('"'));
        } else {
            out.append(s.substring_char(i, i + 1));
            assert(out@ =~= front.push(c));
        }
        i += 1;
    }
    assert(s@.take(i as int) =~= s@);
    out
}

/// Whether every factor is a number.
fn factors_are_literal(factors: &[String]) -> (literal: bool)
    ensures
        literal <==> all_literal(texts(factors@)),
{
    let mut i: usize = 0;
    while i < factors.len()
        invariant
            i <= factors@.len(),
            forall|k: int| 0 <= k < i ==> u128_of(#[trigger] texts(factors@)[k]) is Some,
        decreases factors@.len() - i,
    {
        assert(texts(factors@)[i as int] == factors@[i as int]@);
        if parse_u128(factors[i].as_str()).is_none() {
            return false;
        }
        i += 1;
    }
    true
}

/// A product with a factor of zero is zero.
proof fn lemma_product_with_zero(factors: Seq<Seq<char>>, i: int)
    requires
        0 <= i < factors.len(),
        u128_of(factors[i]) == Some(0u128),
    ensures
        product(factors) == 0,
    decreases factors.len(),
{
    let front = factors.drop_last();
    if i < front.len() {
        assert(front[i] == factors[i]);
        lemma_product_with_zero(front, i);
    }
    assert(product(front) * (u128_of(factors.last())->0 as nat) == 0) by (nonlinear_arith)
        requires
            product(front) == 0 || u128_of(factors.last())->0 == 0,
    ;
}

/// Without a factor of zero, more factors do not make a product smaller.
proof fn lemma_product_grows(factors: Seq<Seq<char>>, n: int)
    requires
        0 <= n <= factors.len(),
        forall|i: int| 0 <= i < factors.len() ==> u128_of(#[trigger] factors[i])->0 > 0,
    ensures
        product(factors.take(n)) <= product(factors),
    decreases factors.len() - n,
{
    if n == factors.len() {
        assert(factors.take(n) =~= factors);
    } else {
        let more = factors.take(n + 1);
        assert(more.drop_last() =~= factors.take(n));
        assert(more.last() == factors[n]);
        assert(product(factors.take(n)) <= product(factors.take(n)) * (u128_of(more.last())->0
            as nat)) by (nonlinear_arith)
            requires
                u128_of(more.last())->0 >= 1,
                product(factors.take(n)) >= 0,
        ;
        lemma_product_grows(factors, n + 1);
    }
}

/// Where a factor of zero stands among literal factors, if anywhere.
fn zero_factor(factors: &[String]) -> (at: Option<usize>)
    requires
        all_literal(texts(factors@)),
    ensures
        match at {
            Some(k) => k < factors@.len() && u128_of(texts(factors@)[k as int]) == Some(0u128),
            None => forall|i: int|
                0 <= i < factors@.len() ==> u128_of(#[trigger] texts(factors@)[i])->0 > 0,
        },
{
    let mut i: usize = 0;
    while i < factors.len()
        invariant
            all_literal(texts(factors@)),
            i <= factors@.len(),
            forall|k: int| 0 <= k < i ==> u128_of(#[trigger] texts(factors@)[k])->0 > 0,
        decreases factors@.len() - i,
    {
        assert(texts(factors@)[i as int] == factors@[i as int]@);
        if let Some(f) = parse_u128(factors[i].as_str()) {
            if f == 0 {
                return Some(i);
            }
        }
        i += 1;
    }
    None
}

/// The product of literal factors, or none where it does not fit.
fn multiply(factors: &[String]) -> (p: Option<u128>)
    requires
        all_literal(texts(factors@)),
    ensures
        match p {
            Some(p) => p == product(texts(factors@)),
            None => product(texts(factors@)) > u128::MAX,
        },
{
    let ghost fs = texts(factors@);
    if let Some(k) = zero_factor(factors) {
        proof {
            lemma_product_with_zero(fs, k as int);
        }
        return Some(0);
    }
    let mut p: u128 = 1;
    let mut i: usize = 0;
    while i < factors.len()
        invariant
            i <= factors@.len(),
            fs == texts(factors@),
            all_literal(fs),
            forall|k: int| 0 <= k < fs.len() ==> u128_of(#[trigger] fs[k])->0 > 0,
            product(fs.take(i as int)) == p,
        decreases factors@.len() - i,
    {
        assert(fs.take(i + 1).drop_last() =~= fs.take(i as int));
        assert(fs.take(i + 1).last() == factors@[i as int]@);
        assert(u128_of(fs[i as int]) is Some);
        if let Some(f) = parse_u128(factors[i].as_str()) {
            match p.checked_mul(f) {
                None => {
                    proof {
                        lemma_product_grows(fs, i + 1);
                    }
                    return None;
                },
                Some(q) => {
                    p = q;
                },
            }
        }
        i += 1;
    }
    assert(fs.take(i as int) =~= fs);
    Some(p)
}

/// The assertion that the product of the factors keeps the bound.
fn assertion_text(factors: &[String], n: u128) -> (s: String)
    ensures
        s@ == "const _: () = assert!(("@ + joined(texts(factors@), " * "@) + ") <= "@ + decimal(
            n as nat,
        ) + ");"@,
{
    let mut s = "const _: () = assert!((".to_owned();
    s.append(join(factors, " * ").as_str());
    s.append(") <= ");
    s.append(decimal_text(n).as_str());
    s.append(");");
    s
}

/// The error on a nest of literals whose product, where it fits, is `p`.
fn excess_text(factors: &[String], p: Option<u128>, n: u128) -> (s: String)
    requires
        match p {
            Some(p) => p == product(texts(factors@)),
            None => product(texts(factors@)) > u128::MAX,
        },
    ensures
        s@ == excess(texts(factors@), n),
{
    let mut s = "deepest loop nest ".to_owned();
    s.append(join(factors, " * ").as_str());
    if let Some(p) = p {
        s.append(" = ");
        s.append(decimal_text(p).as_str());
    }
    s.append(" exceeds the declared bound ");
    s.append(decimal_text(n).as_str());
    s
}

/// Check a function against the bound that its attribute declares. The result is what belongs
/// at the top of its body: nothing where the function keeps the bound and no constant is left
/// to multiply out.
pub fn bounded(attr: &[Token], item: &[Token]) -> (pre: String)
    ensures
        pre@ == gate(attr@, item@),
{
    let n: u128 = match parse_bound(attr) {
        Some(n) => n,
        None => {
            return "::core::compile_error!(\"#[bounded] requires a numeric bound, e.g. #[bounded(64)]\");".to_owned();
        },
    };
    let mut st = ScanState::new();
    let none: Vec<String> = Vec::new();
    scan(item, none.as_slice(), &mut st);
    let ghost found = findings(item@, 0, Seq::empty());
    proof {
        assert(texts(none@) =~= Seq::<Seq<char>>::empty());
        assert(Findings::none().followed_by(found).errors =~= found.errors);
        assert(Findings::none().followed_by(found).chains =~= found.chains);
    }
    let mut pre = String::new();
    if let Some(factors) = st.deepest_provable() {
        if factors_are_literal(factors.as_slice()) {
            let p = multiply(factors.as_slice());
            let exceeds: bool = match p {
                Some(p) => p > n,
                None => true,
            };
            if exceeds {
                let error = excess_text(factors.as_slice(), p, n);
                let ghost errors = st.errors@;
                st.errors.push(error);
                assert(texts(st.errors@) =~= texts(errors).push(error@));
            }
        } else {
            pre = assertion_text(factors.as_slice(), n);
        }
    }
    assert(pre@ =~= const_assertion(found, n));
    assert(texts(st.errors@) == all_errors(found, n));
    let ghost head = pre@;
    if st.errors.len() > 0 {
        pre.append("::core::compile_error!(\"");
        pre.append(escape(join(st.errors.as_slice(), "; ").as_str()).as_str());
        pre.append("\");");
    }
    assert(pre@ =~= head + error_statement(all_errors(found, n)));
    pre
}

/// Where the checks go: into the first braced group of an item, its body.
pub fn body_of(item: &[Token]) -> (at: Option<usize>)
    ensures
        match at {
            Some(k) => k < item@.len() && is_group(item@[k as int], Bracket::Brace) && forall|j: int|
                0 <= j < k ==> !is_group(#[trigger] item@[j], Bracket::Brace),
            None => forall|j: int|
                0 <= j < item@.len() ==> !is_group(#[trigger] item@[j], Bracket::Brace),
        },
{
    proof {
        lemma_brace_from(item@, 0);
    }
    let k: usize = find_brace(item, 0);
    if k < item.len() {
        Some(k)
    } else {
        None
    }
}

/// Whether `word` occurs in `tokens` from `i` on, at any depth of groups.
pub open spec fn mentions(tokens: Seq<Token>, i: int, word: Seq<char>) -> bool
    decreases tokens, tokens.len() - i,
{
    if i < 0 || i >= tokens.len() {
        false
    } else if tokens[i] is Group {
        mentions(tokens[i]->tokens@, 0, word) || mentions(tokens, i + 1, word)
    } else {
        text(tokens[i]) == word || mentions(tokens, i + 1, word)
    }
}

proof fn lemma_no_for_no_chain(tokens: Seq<Token>, i: int, factors: Seq<Seq<char>>)
    requires
        !mentions(tokens, i, "for"@),
    ensures
        findings(tokens, i, factors).chains.len() == 0,
        mentions(tokens, i, "loop"@) || mentions(tokens, i, "while"@) <==> findings(
            tokens,
            i,
            factors,
        ).errors.len() > 0,
    decreases tokens, tokens.len() - i,
{
    if 0 <= i < tokens.len() {
        if tokens[i] is Group {
            lemma_no_for_no_chain(tokens[i]->tokens@, 0, factors);
        }
        lemma_no_for_no_chain(tokens, i + 1, factors);
    }
}

/// A function without loops is unaffected: where neither `loop`, `while` nor `for` occurs, a
/// numeric bound adds nothing to the body.
pub proof fn loop_free_functions_are_unaffected(attr: Seq<Token>, item: Seq<Token>)
    requires
        bound_from(attr, 0) is Some,
        !mentions(item, 0, "loop"@),
        !mentions(item, 0, "while"@),
        !mentions(item, 0, "for"@),
    ensures
        gate(attr, item) == Seq::<char>::empty(),
{
    lemma_no_for_no_chain(item, 0, Seq::empty());
    let found = findings(item, 0, Seq::empty());
    deepest_exists_where_one_is_provable(found.chains);
    assert(gate(attr, item) =~= Seq::<char>::empty());
}

/// No bare `loop`, no `while`: outside the reach of `for` headers, a function in which either
/// occurs at any depth is refused, whatever its bound.
pub proof fn loop_and_while_are_refused(attr: Seq<Token>, item: Seq<Token>)
    requires
        bound_from(attr, 0) is Some,
        mentions(item, 0, "loop"@) || mentions(item, 0, "while"@),
        !mentions(item, 0, "for"@),
    ensures
        all_errors(findings(item, 0, Seq::empty()), bound_from(attr, 0)->0).len() > 0,
        gate(attr, item).len() > 0,
{
    lemma_no_for_no_chain(item, 0, Seq::empty());
    reveal_strlit("\");");
}

/// A chain names every enclosing loop: whatever is found inside loops with certain factors
/// begins with those factors.
pub proof fn chains_begin_with_the_enclosing_factors(
    tokens: Seq<Token>,
    i: int,
    factors: Seq<Seq<char>>,
    c: int,
)
    requires
        0 <= c < findings(tokens, i, factors).chains.len(),
    ensures
        factors.is_prefix_of(findings(tokens, i, factors).chains[c]),
    decreases tokens, tokens.len() - i,
{
    if tokens[i] is Group {
        let inner = findings(tokens[i]->tokens@, 0, factors).chains;
        if c < inner.len() {
            chains_begin_with_the_enclosing_factors(tokens[i]->tokens@, 0, factors, c);
        } else {
            chains_begin_with_the_enclosing_factors(tokens, i + 1, factors, c - inner.len());
        }
    } else if text(tokens[i]) != "loop"@ && text(tokens[i]) != "while"@ && text(tokens[i])
        == "for"@ {
        let j = brace_from(tokens, i + 1);
        let chain = with_trip_count(factors, tokens.subrange(i + 1, j));
        let own = for_findings(tokens.subrange(i + 1, j), chain).chains;
        assert(factors.is_prefix_of(chain));
        if c >= own.len() {
            let inner = findings(tokens[j]->tokens@, 0, chain).chains;
            if c - own.len() < inner.len() {
                chains_begin_with_the_enclosing_factors(
                    tokens[j]->tokens@,
                    0,
                    chain,
                    c - own.len(),
                );
            } else {
                chains_begin_with_the_enclosing_factors(
                    tokens,
                    j + 1,
                    factors,
                    c - own.len() - inner.len(),
                );
            }
        }
    } else {
        chains_begin_with_the_enclosing_factors(tokens, i + 1, factors, c);
    }
}

/// Nests of literals alone are multiplied out: with a sound structure the function is refused
/// exactly where the deepest one exceeds the bound, however large it is.
pub proof fn literal_nests_keep_the_bound(attr: Seq<Token>, item: Seq<Token>)
    requires
        bound_from(attr, 0) is Some,
        findings(item, 0, Seq::empty()).errors.len() == 0,
        deepest(findings(item, 0, Seq::empty()).chains) is Some,
        all_literal(deepest(findings(item, 0, Seq::empty()).chains)->0),
    ensures
        gate(attr, item) == Seq::<char>::empty() <==> product(
            deepest(findings(item, 0, Seq::empty()).chains)->0,
        ) <= bound_from(attr, 0)->0,
{
    reveal_strlit("\");");
    let n = bound_from(attr, 0)->0;
    let found = findings(item, 0, Seq::empty());
    if product(deepest(found.chains)->0) <= n {
        assert(gate(attr, item) =~= Seq::<char>::empty());
    } else {
        assert(error_statement(all_errors(found, n)).len() > 0);
    }
}

} // verus!
