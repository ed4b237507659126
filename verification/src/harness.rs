//! States for crash tests.
//!
//! Every number names a state: a corpus, the same on every machine, and what an
//! index over it must hold and answer. A build of one state over the index of
//! another is killed at some moment; what is found afterwards must be one of the
//! two, and nothing in between.

use vstd::prelude::*;

use crate::index::builder::index_document;
use crate::index::memory::TermMap;
use crate::text::{decimal, push_decimal, same, views};
use crate::tokenizer::text_atoms;

verus! {

/// The number that follows `x`.
pub open spec fn shifted(x: u64) -> u64 {
    let a = x ^ (x << 13);
    let b = a ^ (a >> 7);
    b ^ (b << 17)
}

/// The `n`-th number from `x` on.
pub open spec fn after(x: u64, n: int) -> u64
    decreases n,
{
    if n <= 0 {
        x
    } else {
        shifted(after(x, n - 1))
    }
}

/// The number that a seed starts from.
pub open spec fn seeded(seed: u64) -> u64 {
    (((seed * 0x9E37_79B9_7F4A_7C15) % 0x1_0000_0000_0000_0000) as u64) | 1
}

/// Numbers that look random, and are the same for the same seed.
#[derive(Debug, Clone, Copy, PartialEq, Eq, Structural)]
pub struct XorShift {
    pub x: u64,
}

impl XorShift {
    /// From a seed.
    pub fn new(seed: u64) -> (r: Self)
        ensures
            r.x == seeded(seed),
    {
        XorShift { x: seed.wrapping_mul(0x9E37_79B9_7F4A_7C15) | 1 }
    }

    /// The next number.
    pub fn next(&mut self) -> (n: u64)
        ensures
            n == shifted(old(self).x),
            final(self).x == n,
    {
        let a: u64 = self.x ^ (self.x << 13);
        let b: u64 = a ^ (a >> 7);
        self.x = b ^ (b << 17);
        self.x
    }

    /// The next number, cut to less than `n`; zero where `n` is.
    pub fn below(&mut self, n: u64) -> (r: u64)
        ensures
            final(self).x == shifted(old(self).x),
            r == if n == 0 {
                0
            } else {
                shifted(old(self).x) % n
            },
    {
        let x: u64 = self.next();
        if n == 0 {
            0
        } else {
            x % n
        }
    }
}

/// How many words there are to draw from.
pub const WORDS: u64 = 19;

/// The words to draw from, by number.
pub open spec fn vocab(i: u64) -> Seq<char> {
    match i {
        0 => "alpha"@,
        1 => "beta"@,
        2 => "gamma"@,
        3 => "delta"@,
        4 => "epsilon"@,
        5 => "zeta"@,
        6 => "parse_http_response"@,
        7 => "HttpResponse"@,
        8 => "x_x"@,
        9 => "foo_foo"@,
        10 => "getFooFoo"@,
        11 => "café"@,
        12 => "naïve"@,
        13 => "日本語"@,
        14 => "std::fs::read"@,
        15 => "snake_case_name"@,
        16 => "XMLHttpRequest"@,
        17 => "sha256"@,
        _ => "utf8Decode"@,
    }
}

fn word(i: u64) -> (r: &'static str)
    ensures
        r@ == vocab(i),
{
    match i {
        0 => "alpha",
        1 => "beta",
        2 => "gamma",
        3 => "delta",
        4 => "epsilon",
        5 => "zeta",
        6 => "parse_http_response",
        7 => "HttpResponse",
        8 => "x_x",
        9 => "foo_foo",
        10 => "getFooFoo",
        11 => "café",
        12 => "naïve",
        13 => "日本語",
        14 => "std::fs::read",
        15 => "snake_case_name",
        16 => "XMLHttpRequest",
        17 => "sha256",
        _ => "utf8Decode",
    }
}

proof fn lemma_word_len(i: u64)
    ensures
        vocab(i).len() <= 19,
{
    reveal_strlit("alpha");
    reveal_strlit("beta");
    reveal_strlit("gamma");
    reveal_strlit("delta");
    reveal_strlit("epsilon");
    reveal_strlit("zeta");
    reveal_strlit("parse_http_response");
    reveal_strlit("HttpResponse");
    reveal_strlit("x_x");
    reveal_strlit("foo_foo");
    reveal_strlit("getFooFoo");
    reveal_strlit("café");
    reveal_strlit("naïve");
    reveal_strlit("日本語");
    reveal_strlit("std::fs::read");
    reveal_strlit("snake_case_name");
    reveal_strlit("XMLHttpRequest");
    reveal_strlit("sha256");
    reveal_strlit("utf8Decode");
}

/// How many documents a state has.
pub open spec fn docs_in(state: u64) -> int {
    20 + (state * 7) % 40
}

/// How many documents a state has.
pub fn doc_count(state: u64) -> (n: u64)
    requires
        state * 7 <= u64::MAX,
    ensures
        n == docs_in(state),
{
    20 + (state * 7) % 40
}

/// The first `n` words drawn from `x` on, past the number that says how many.
pub open spec fn drawn(x: u64, n: int) -> Seq<Seq<char>>
    decreases n,
{
    if n <= 0 {
        Seq::empty()
    } else {
        drawn(x, n - 1).push(vocab(after(x, n + 1) % WORDS))
    }
}

/// The words of document `j`: every document has the first, every third one the
/// second, and some more are drawn.
pub open spec fn words_of(state: u64, j: u64) -> Seq<Seq<char>> {
    let x = seeded((state * 1_000_003 + j) as u64);
    let head = if j % 3 == 0 {
        seq!["alpha"@, "beta"@]
    } else {
        seq!["alpha"@]
    };
    head + drawn(x, 3 + after(x, 1) % 25)
}

/// The words of document `j`.
pub fn doc_words(state: u64, j: u64) -> (r: Vec<String>)
    requires
        state * 1_000_003 + j <= u64::MAX,
    ensures
        views(r@) == words_of(state, j),
{
    let mut rng = XorShift::new(state * 1_000_003 + j);
    let ghost x = rng.x;
    let n: u64 = 3 + rng.below(25);
    let mut r: Vec<String> = Vec::new();
    r.push("alpha".to_string());
    if j % 3 == 0 {
        r.push("beta".to_string());
    }
    let ghost head = views(r@);
    assert(head =~= if j % 3 == 0 {
        seq!["alpha"@, "beta"@]
    } else {
        seq!["alpha"@]
    });
    proof {
        reveal_with_fuel(after, 2);
    }
    assert(rng.x == after(x, 1));
    let mut i: u64 = 0;
    assert(views(r@) =~= head + drawn(x, 0));
    while i < n
        invariant
            i <= n,
            n == 3 + after(x, 1) % 25,
            rng.x == after(x, i + 1),
            views(r@) == head + drawn(x, i as int),
        decreases n - i,
    {
        let ghost had = views(r@);
        let k: u64 = rng.below(WORDS);
        r.push(word(k).to_string());
        i = i + 1;
        assert(after(x, i + 1) == shifted(after(x, i as int)));
        assert(views(r@) =~= had.push(vocab(k)));
        assert(views(r@) =~= head + drawn(x, i as int));
    }
    r
}

/// Words with a space before each.
pub open spec fn spaced(words: Seq<Seq<char>>, n: int) -> Seq<char>
    decreases n,
{
    if n <= 0 {
        Seq::empty()
    } else {
        spaced(words, n - 1) + " "@ + words[n - 1]
    }
}

/// The text of document `j`.
pub open spec fn content_of(state: u64, j: u64) -> Seq<char> {
    let words = words_of(state, j);
    "state"@ + decimal(state as nat) + spaced(words, words.len() as int) + "\n"@
}

/// The name of document `j`.
pub open spec fn name_of(j: u64) -> Seq<char> {
    "doc_"@ + (if j < 10 {
        "00"@
    } else if j < 100 {
        "0"@
    } else {
        ""@
    }) + decimal(j as nat) + ".txt"@
}

fn doc_name(j: u64) -> (r: String)
    ensures
        r@ == name_of(j),
{
    let mut r: String = "doc_".to_string();
    if j < 10 {
        r.push_str("00");
    } else if j < 100 {
        r.push_str("0");
    } else {
        r.push_str("");
    }
    push_decimal(&mut r, j);
    r.push_str(".txt");
    r
}

fn doc_content(state: u64, words: &Vec<String>) -> (r: String)
    ensures
        r@ == "state"@ + decimal(state as nat) + spaced(views(words@), words@.len() as int) + "\n"@,
{
    let mut r: String = "state".to_string();
    push_decimal(&mut r, state);
    let ghost head = r@;
    let mut i: usize = 0;
    assert(r@ =~= head + spaced(views(words@), 0));
    while i < words.len()
        invariant
            i <= words@.len(),
            r@ == head + spaced(views(words@), i as int),
        decreases words@.len() - i,
    {
        r.push_str(" ");
        r.push_str(words[i].as_str());
        i = i + 1;
        assert(r@ =~= head + spaced(views(words@), i as int));
    }
    r.push_str("\n");
    r
}

/// The documents of a state: names and texts, in the order of the names.
pub fn corpus(state: u64) -> (r: Vec<(String, String)>)
    requires
        state * 1_000_003 + 59 <= u64::MAX,
    ensures
        r@.len() == docs_in(state),
        forall|j: int|
            0 <= j < r@.len() ==> (#[trigger] r@[j]).0@ == name_of(j as u64) && r@[j].1@
                == content_of(state, j as u64),
{
    let n: u64 = doc_count(state);
    let mut r: Vec<(String, String)> = Vec::new();
    let mut j: u64 = 0;
    while j < n
        invariant
            j <= n,
            n == docs_in(state),
            state * 1_000_003 + 59 <= u64::MAX,
            r@.len() == j,
            forall|k: int|
                0 <= k < r@.len() ==> (#[trigger] r@[k]).0@ == name_of(k as u64) && r@[k].1@
                    == content_of(state, k as u64),
        decreases n - j,
    {
        let words = doc_words(state, j);
        assert(views(words@).len() == words@.len());
        r.push((doc_name(j), doc_content(state, &words)));
        j = j + 1;
    }
    r
}

/// A word stands among the words.
pub open spec fn has_word(words: Seq<Seq<char>>, w: Seq<char>) -> bool {
    words.contains(w)
}

/// The second word stands directly behind the first somewhere.
pub open spec fn has_pair(words: Seq<Seq<char>>, a: Seq<char>, b: Seq<char>) -> bool {
    exists|i: int| 0 <= i && i + 1 < words.len() && #[trigger] words[i] == a && words[i + 1] == b
}

/// How many of the first `n` documents have the word.
pub open spec fn with_word(state: u64, w: Seq<char>, n: int) -> int
    decreases n,
{
    if n <= 0 {
        0
    } else {
        with_word(state, w, n - 1) + if has_word(words_of(state, (n - 1) as u64), w) {
            1int
        } else {
            0
        }
    }
}

/// How many of the first `n` documents have the pair.
pub open spec fn with_pair(state: u64, a: Seq<char>, b: Seq<char>, n: int) -> int
    decreases n,
{
    if n <= 0 {
        0
    } else {
        with_pair(state, a, b, n - 1) + if has_pair(words_of(state, (n - 1) as u64), a, b) {
            1int
        } else {
            0
        }
    }
}

/// What an index over a state must hold.
#[derive(Debug)]
pub struct Expected {
    /// The names and lengths of the documents, in the order of the names.
    pub docs: Vec<(String, u32)>,
    /// How many documents have `beta`.
    pub beta_docs: usize,
    /// How many have it directly behind `alpha`.
    pub phrase_docs: usize,
}

impl Expected {
    /// What is expected is that of the state.
    pub open spec fn is_of(&self, state: u64) -> bool {
        &&& self.docs@.len() == docs_in(state)
        &&& forall|j: int|
            0 <= j < self.docs@.len() ==> (#[trigger] self.docs@[j]).0@ == name_of(j as u64)
                && self.docs@[j].1 == text_atoms(content_of(state, j as u64)).len()
        &&& self.beta_docs == with_word(state, "beta"@, docs_in(state))
        &&& self.phrase_docs == with_pair(state, "alpha"@, "beta"@, docs_in(state))
    }
}

fn finds_word(words: &Vec<String>, w: &str) -> (r: bool)
    ensures
        r == has_word(views(words@), w@),
{
    let ghost vs = views(words@);
    let mut i: usize = 0;
    while i < words.len()
        invariant
            i <= words@.len(),
            vs == views(words@),
            forall|k: int| 0 <= k < i ==> #[trigger] vs[k] != w@,
        decreases words@.len() - i,
    {
        if same(words[i].as_str(), w) {
            assert(vs[i as int] == w@);
            return true;
        }
        i = i + 1;
    }
    false
}

fn finds_pair(words: &Vec<String>, a: &str, b: &str) -> (r: bool)
    ensures
        r == has_pair(views(words@), a@, b@),
{
    let ghost vs = views(words@);
    let mut i: usize = 1;
    while i < words.len()
        invariant
            1 <= i,
            vs == views(words@),
            forall|k: int| 0 <= k && k + 1 < i && k + 1 < vs.len() ==> !(#[trigger] vs[k] == a@
                && vs[k + 1] == b@),
        decreases words@.len() - i,
    {
        if same(words[i - 1].as_str(), a) && same(words[i].as_str(), b) {
            assert(vs[i - 1] == a@ && vs[i - 1 + 1] == b@);
            return true;
        }
        i = i + 1;
    }
    false
}

proof fn lemma_spaced_len(words: Seq<Seq<char>>, n: int)
    requires
        0 <= n <= words.len(),
        forall|i: int| 0 <= i < words.len() ==> (#[trigger] words[i]).len() <= 19,
    ensures
        spaced(words, n).len() <= 20 * n,
    decreases n,
{
    reveal_strlit(" ");
    if n > 0 {
        lemma_spaced_len(words, n - 1);
    }
}

proof fn lemma_drawn(x: u64, n: int)
    requires
        0 <= n,
    ensures
        drawn(x, n).len() == n,
        forall|i: int| 0 <= i < n ==> (#[trigger] drawn(x, n)[i]).len() <= 19,
    decreases n,
{
    if n > 0 {
        lemma_drawn(x, n - 1);
        lemma_word_len(after(x, n + 1) % WORDS);
        assert forall|i: int| 0 <= i < n implies (#[trigger] drawn(x, n)[i]).len() <= 19 by {
            if i < n - 1 {
                assert(drawn(x, n)[i] == drawn(x, n - 1)[i]);
            }
        }
    }
}

proof fn lemma_decimal_len(n: nat, digits: nat, bound: nat)
    requires
        n < bound,
        bound == pow10(digits),
        digits >= 1,
    ensures
        decimal(n).len() <= digits,
    decreases digits,
{
    reveal_with_fuel(pow10, 2);
    if n >= 10 {
        assert(digits >= 2);
        assert(bound == 10 * pow10((digits - 1) as nat));
        assert(n / 10 < pow10((digits - 1) as nat));
        lemma_decimal_len(n / 10, (digits - 1) as nat, pow10((digits - 1) as nat));
    }
}

spec fn pow10(n: nat) -> nat
    decreases n,
{
    if n == 0 {
        1
    } else {
        10 * pow10((n - 1) as nat)
    }
}

proof fn lemma_content_len(state: u64, j: u64)
    ensures
        content_of(state, j).len() <= 1000,
{
    let words = words_of(state, j);
    let x = seeded((state * 1_000_003 + j) as u64);
    let n = 3 + after(x, 1) % 25;
    lemma_drawn(x, n);
    reveal_strlit("alpha");
    reveal_strlit("beta");
    reveal_strlit("state");
    reveal_strlit("\n");
    assert forall|i: int| 0 <= i < words.len() implies (#[trigger] words[i]).len() <= 19 by {
        let h = words.len() - n;
        if i >= h {
            assert(words[i] == drawn(x, n)[i - h]);
        }
    }
    lemma_spaced_len(words, words.len() as int);
    reveal_with_fuel(pow10, 21);
    lemma_decimal_len(state as nat, 20, pow10(20));
}

/// What an index over a state must hold.
pub fn expected(state: u64) -> (e: Expected)
    requires
        state * 1_000_003 + 59 <= u64::MAX,
    ensures
        e.is_of(state),
        e.beta_docs <= e.docs@.len(),
        e.phrase_docs <= e.docs@.len(),
{
    let n: u64 = doc_count(state);
    let mut docs: Vec<(String, u32)> = Vec::new();
    let mut beta_docs: usize = 0;
    let mut phrase_docs: usize = 0;
    let mut j: u64 = 0;
    while j < n
        invariant
            j <= n <= 59,
            n == docs_in(state),
            state * 1_000_003 + 59 <= u64::MAX,
            docs@.len() == j,
            forall|k: int|
                0 <= k < docs@.len() ==> (#[trigger] docs@[k]).0@ == name_of(k as u64) && docs@[k].1
                    == text_atoms(content_of(state, k as u64)).len(),
            beta_docs <= j,
            phrase_docs <= j,
            beta_docs == with_word(state, "beta"@, j as int),
            phrase_docs == with_pair(state, "alpha"@, "beta"@, j as int),
        decreases n - j,
    {
        let words = doc_words(state, j);
        assert(views(words@).len() == words@.len());
        let text = doc_content(state, &words);
        proof {
            lemma_content_len(state, j);
        }
        let mut terms = TermMap::new();
        let (len, _) = index_document(0, text.as_str(), &mut terms);
        docs.push((doc_name(j), len));
        if finds_word(&words, "beta") {
            beta_docs = beta_docs + 1;
        }
        if finds_pair(&words, "alpha", "beta") {
            phrase_docs = phrase_docs + 1;
        }
        j = j + 1;
    }
    Expected { docs, beta_docs, phrase_docs }
}

/// The documents found are those expected.
pub open spec fn same_docs(found: Seq<(String, u32)>, want: Seq<(String, u32)>) -> bool {
    &&& found.len() == want.len()
    &&& forall|i: int|
        0 <= i < found.len() ==> (#[trigger] found[i]).0@ == want[i].0@ && found[i].1 == want[i].1
}

impl Expected {
    /// Whether the documents found, in the order of their names, are those of
    /// the state.
    pub fn holds(&self, found: &Vec<(String, u32)>) -> (r: bool)
        ensures
            r == same_docs(found@, self.docs@),
    {
        if found.len() != self.docs.len() {
            return false;
        }
        let mut i: usize = 0;
        while i < found.len()
            invariant
                i <= found@.len(),
                found@.len() == self.docs@.len(),
                forall|k: int|
                    0 <= k < i ==> (#[trigger] found@[k]).0@ == self.docs@[k].0@ && found@[k].1
                        == self.docs@[k].1,
            decreases found@.len() - i,
        {
            if !same(found[i].0.as_str(), self.docs[i].0.as_str()) || found[i].1
                != self.docs[i].1 {
                return false;
            }
            i = i + 1;
        }
        true
    }

    /// The queries to ask of an index over the state, and how many documents
    /// each must match.
    pub fn checks(&self, state: u64) -> (r: Vec<(String, usize)>)
        requires
            state < u64::MAX,
            self.beta_docs <= self.docs@.len(),
        ensures
            r@.len() == 6,
            r@[0].0@ == "state"@ + decimal(state as nat) && r@[0].1 == self.docs@.len(),
            r@[1].0@ == "alpha"@ && r@[1].1 == self.docs@.len(),
            r@[2].0@ == "beta"@ && r@[2].1 == self.beta_docs,
            r@[3].0@ == "\"alpha beta\""@ && r@[3].1 == self.phrase_docs,
            r@[4].0@ == "state"@ + decimal((state + 1) as nat) && r@[4].1 == 0,
            r@[5].0@ == "alpha -beta"@ && r@[5].1 == self.docs@.len() - self.beta_docs,
    {
        let n: usize = self.docs.len();
        let mut own: String = "state".to_string();
        push_decimal(&mut own, state);
        let mut next: String = "state".to_string();
        push_decimal(&mut next, state + 1);
        let mut r: Vec<(String, usize)> = Vec::new();
        r.push((own, n));
        r.push(("alpha".to_string(), n));
        r.push(("beta".to_string(), self.beta_docs));
        r.push(("\"alpha beta\"".to_string(), self.phrase_docs));
        r.push((next, 0));
        r.push(("alpha -beta".to_string(), n - self.beta_docs));
        r
    }
}

/// The documents found are those of the state.
pub open spec fn docs_are(found: Seq<(String, u32)>, state: u64) -> bool {
    &&& found.len() == docs_in(state)
    &&& forall|j: int|
        0 <= j < found.len() ==> (#[trigger] found[j]).0@ == name_of(j as u64) && found[j].1
            == text_atoms(content_of(state, j as u64)).len()
}

/// The first of the states whose documents were found, with what is expected of
/// it.
pub fn matching(found: &Vec<(String, u32)>, candidates: &Vec<u64>) -> (r: Option<(u64, Expected)>)
    requires
        forall|i: int|
            0 <= i < candidates@.len() ==> #[trigger] candidates@[i] * 1_000_003 + 59 <= u64::MAX,
    ensures
        r is None <==> forall|i: int|
            0 <= i < candidates@.len() ==> !docs_are(found@, #[trigger] candidates@[i]),
        r matches Some((state, e)) ==> e.is_of(state) && e.beta_docs <= e.docs@.len() && exists|
            i: int,
        |
            0 <= i < candidates@.len() && #[trigger] candidates@[i] == state && docs_are(
                found@,
                state,
            ) && forall|j: int| 0 <= j < i ==> !docs_are(found@, #[trigger] candidates@[j]),
{
    let mut i: usize = 0;
    while i < candidates.len()
        invariant
            i <= candidates@.len(),
            forall|j: int|
                0 <= j < candidates@.len() ==> #[trigger] candidates@[j] * 1_000_003 + 59
                    <= u64::MAX,
            forall|j: int| 0 <= j < i ==> !docs_are(found@, #[trigger] candidates@[j]),
        decreases candidates@.len() - i,
    {
        let state: u64 = candidates[i];
        let e = expected(state);
        let same: bool = e.holds(found);
        assert(same == docs_are(found@, state)) by {
            if docs_are(found@, state) {
                assert(same_docs(found@, e.docs@));
            }
        }
        if same {
            assert(candidates@[i as int] == state);
            return Some((state, e));
        }
        i = i + 1;
    }
    None
}

/// The first of the checks that was answered with another number of documents.
pub fn first_wrong(checks: &Vec<(String, usize)>, got: &Vec<usize>) -> (r: Option<usize>)
    requires
        got@.len() == checks@.len(),
    ensures
        r is None <==> forall|i: int| 0 <= i < got@.len() ==> #[trigger] got@[i] == checks@[i].1,
        r matches Some(k) ==> k < got@.len() && got@[k as int] != checks@[k as int].1 && forall|
            i: int,
        |
            0 <= i < k ==> #[trigger] got@[i] == checks@[i].1,
{
    let mut i: usize = 0;
    while i < got.len()
        invariant
            i <= got@.len(),
            got@.len() == checks@.len(),
            forall|k: int| 0 <= k < i ==> #[trigger] got@[k] == checks@[k].1,
        decreases got@.len() - i,
    {
        if got[i] != checks[i].1 {
            return Some(i);
        }
        i = i + 1;
    }
    None
}

/// How the kills went so far.
#[derive(Debug, Clone, Copy, PartialEq, Eq, Structural)]
pub struct Tally {
    /// The state that was committed last.
    pub prev: u64,
    /// How many kills left it in place.
    pub kept_old: u32,
    /// How many came after the next one was committed.
    pub took_new: u32,
}

impl Tally {
    /// After the first commit, of a state.
    pub fn new(prev: u64) -> (t: Self)
        ensures
            t == (Tally { prev, kept_old: 0, took_new: 0 }),
    {
        Tally { prev, kept_old: 0, took_new: 0 }
    }

    /// The state to build next: one to three further on.
    pub fn target(&self, rng: &mut XorShift) -> (state: u64)
        requires
            self.prev <= u64::MAX - 3,
        ensures
            state == self.prev + 1 + shifted(old(rng).x) % 3,
            final(rng).x == shifted(old(rng).x),
    {
        self.prev + 1 + rng.below(3)
    }

    /// Takes in which state was found after a kill: the target, or the one
    /// before. Anything else is a failure, and so is none.
    pub fn take(&mut self, target: u64, found: Option<u64>) -> (ok: bool)
        requires
            old(self).kept_old < u32::MAX,
            old(self).took_new < u32::MAX,
        ensures
            ok == (found == Some(target) || found == Some(old(self).prev)),
            *final(self) == if found == Some(target) {
                Tally {
                    prev: target,
                    took_new: (old(self).took_new + 1) as u32,
                    ..*old(self)
                }
            } else if found == Some(old(self).prev) {
                Tally { kept_old: (old(self).kept_old + 1) as u32, ..*old(self) }
            } else {
                *old(self)
            },
    {
        match found {
            Some(s) => {
                if s == target {
                    self.prev = target;
                    self.took_new = self.took_new + 1;
                    return true;
                }
                if s == self.prev {
                    self.kept_old = self.kept_old + 1;
                    return true;
                }
                false
            },
            None => false,
        }
    }
}

/// The numbers never run dry: no seed starts from zero, and none leads to it.
pub proof fn lemma_never_zero(seed: u64, n: int)
    ensures
        seeded(seed) != 0,
        after(seeded(seed), n) != 0,
    decreases n,
{
    let m = ((seed * 0x9E37_79B9_7F4A_7C15) % 0x1_0000_0000_0000_0000) as u64;
    assert(m | 1 != 0) by (bit_vector);
    if n > 0 {
        lemma_never_zero(seed, n - 1);
        lemma_shift_keeps(after(seeded(seed), n - 1));
    }
}

proof fn lemma_shift_keeps(x: u64)
    requires
        x != 0,
    ensures
        shifted(x) != 0,
{
    let a = x ^ (x << 13);
    let b = a ^ (a >> 7);
    assert(a != 0) by (bit_vector)
        requires
            a == x ^ (x << 13),
            x != 0,
    ;
    assert(b != 0) by (bit_vector)
        requires
            b == a ^ (a >> 7),
            a != 0,
    ;
    assert(b ^ (b << 17) != 0) by (bit_vector)
        requires
            b != 0,
    ;
}

} // verus!
