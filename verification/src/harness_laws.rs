//! What the states of the crash tests are, and what is counted in them.

use vstd::prelude::*;

use crate::harness::{
    after, content_of, docs_in, drawn, has_pair, has_word, name_of, seeded, shifted, spaced, vocab,
    with_pair, with_word, words_of,
};
use crate::store::names::lemma_decimal;
use crate::text::{all_digits, decimal, digits_value};

verus! {

/// The documents among the first `n` that have the word.
pub open spec fn docs_with_word(state: u64, w: Seq<char>, n: int) -> Set<int> {
    Set::new(|j: int| 0 <= j < n && words_of(state, j as u64).contains(w))
}

/// The documents among the first `n` in which the second word stands directly behind the first.
pub open spec fn docs_with_pair(state: u64, a: Seq<char>, b: Seq<char>, n: int) -> Set<int> {
    Set::new(|j: int| 0 <= j < n && stand_together(words_of(state, j as u64), a, b))
}

/// The two words make up some two words in a row.
pub open spec fn stand_together(words: Seq<Seq<char>>, a: Seq<char>, b: Seq<char>) -> bool {
    exists|i: int| 0 <= i < words.len() - 1 && #[trigger] words.subrange(i, i + 2) == seq![a, b]
}

/// The documents with a word are counted.
pub proof fn lemma_with_word(state: u64, w: Seq<char>, n: int)
    requires
        n <= u64::MAX,
    ensures
        docs_with_word(state, w, n).finite(),
        with_word(state, w, n) == docs_with_word(state, w, n).len(),
    decreases n,
{
    let now = docs_with_word(state, w, n);
    if n > 0 {
        lemma_with_word(state, w, n - 1);
        let was = docs_with_word(state, w, n - 1);
        assert(!was.contains(n - 1));
        if has_word(words_of(state, (n - 1) as u64), w) {
            assert(now =~= was.insert(n - 1));
        } else {
            assert(now =~= was);
        }
    } else {
        assert(now =~= Set::empty());
    }
}

proof fn lemma_pair(words: Seq<Seq<char>>, a: Seq<char>, b: Seq<char>)
    ensures
        has_pair(words, a, b) <==> stand_together(words, a, b),
{
    if has_pair(words, a, b) {
        let i = choose|i: int|
            0 <= i && i + 1 < words.len() && #[trigger] words[i] == a && words[i + 1] == b;
        assert(words.subrange(i, i + 2) =~= seq![a, b]);
    }
    if stand_together(words, a, b) {
        let i = choose|i: int|
            0 <= i < words.len() - 1 && #[trigger] words.subrange(i, i + 2) == seq![a, b];
        assert(words[i] == words.subrange(i, i + 2)[0]);
        assert(words[i + 1] == words.subrange(i, i + 2)[1]);
    }
}

/// The documents with two words in a row are counted.
pub proof fn lemma_with_pair(state: u64, a: Seq<char>, b: Seq<char>, n: int)
    requires
        n <= u64::MAX,
    ensures
        docs_with_pair(state, a, b, n).finite(),
        with_pair(state, a, b, n) == docs_with_pair(state, a, b, n).len(),
    decreases n,
{
    let now = docs_with_pair(state, a, b, n);
    if n > 0 {
        lemma_with_pair(state, a, b, n - 1);
        lemma_pair(words_of(state, (n - 1) as u64), a, b);
        let was = docs_with_pair(state, a, b, n - 1);
        assert(!was.contains(n - 1));
        if has_pair(words_of(state, (n - 1) as u64), a, b) {
            assert(now =~= was.insert(n - 1));
        } else {
            assert(now =~= was);
        }
    } else {
        assert(now =~= Set::empty());
    }
}

proof fn lemma_drawn_at(x: u64, n: int, k: int)
    requires
        0 <= k < n,
    ensures
        drawn(x, n).len() == n,
        drawn(x, n)[k] == vocab(after(x, k + 2) % 19),
    decreases n,
{
    if n > 1 {
        lemma_drawn_at(
            x,
            n - 1,
            if k < n - 1 {
                k
            } else {
                0
            },
        );
    } else {
        assert(drawn(x, n - 1) =~= Seq::empty());
    }
}

/// A state has 20 to 59 documents. Each has `alpha`, every third one has `beta` behind it, and 3
/// to 27 more words are drawn, one for each number that follows.
pub proof fn lemma_words(state: u64, j: u64, k: int)
    requires
        state * 1_000_003 + j <= u64::MAX,
    ensures
        20 <= docs_in(state) < 60,
        words_of(state, j)[0] == "alpha"@,
        j % 3 == 0 ==> words_of(state, j)[1] == "beta"@,
        ({
            let x = seeded((state * 1_000_003 + j) as u64);
            let own = if j % 3 == 0 {
                2int
            } else {
                1
            };
            let more = 3 + after(x, 1) % 25;
            &&& words_of(state, j).len() == own + more
            &&& 3 <= more <= 27
            &&& 0 <= k < more ==> words_of(state, j)[own + k] == vocab(after(x, k + 2) % 19)
        }),
{
    let x = seeded((state * 1_000_003 + j) as u64);
    let more = 3 + after(x, 1) % 25;
    lemma_drawn_at(
        x,
        more,
        if 0 <= k < more {
            k
        } else {
            0
        },
    );
}

proof fn lemma_spaced(words: Seq<Seq<char>>, n: int)
    requires
        0 <= n <= words.len(),
    ensures
        spaced(words, n) == words.take(n).fold_left(
            Seq::<char>::empty(),
            |t: Seq<char>, w: Seq<char>| t + seq![' '] + w,
        ),
    decreases n,
{
    reveal_strlit(" ");
    if n > 0 {
        lemma_spaced(words, n - 1);
        assert(" "@ =~= seq![' ']);
        assert(words.take(n).drop_last() =~= words.take(n - 1));
        assert(words.take(n).last() == words[n - 1]);
    } else {
        assert(words.take(n) =~= Seq::empty());
    }
}

/// The text of a document is a line: a word that names the state, and the words of the document
/// with a space before each.
pub proof fn lemma_content(state: u64, j: u64)
    ensures
        content_of(state, j) == seq!['s', 't', 'a', 't', 'e'] + decimal(state as nat) + words_of(
            state,
            j,
        ).fold_left(Seq::<char>::empty(), |t: Seq<char>, w: Seq<char>| t + seq![' '] + w) + seq![
            '\n',
        ],
{
    let words = words_of(state, j);
    reveal_strlit("state");
    reveal_strlit("\n");
    assert("state"@ =~= seq!['s', 't', 'a', 't', 'e']);
    assert("\n"@ =~= seq!['\n']);
    lemma_spaced(words, words.len() as int);
    assert(words.take(words.len() as int) =~= words);
}

/// The name of a document holds its number, in three digits.
pub proof fn lemma_name(j: u64)
    requires
        j < 1000,
    ensures
        name_of(j).len() == 11,
        name_of(j).subrange(0, 4) == seq!['d', 'o', 'c', '_'],
        all_digits(name_of(j).subrange(4, 7)),
        digits_value(name_of(j).subrange(4, 7)) == j,
        name_of(j).subrange(7, 11) == seq!['.', 't', 'x', 't'],
{
    let d = decimal(j as nat);
    lemma_decimal(j as nat);
    reveal_strlit("doc_");
    reveal_strlit("00");
    reveal_strlit("0");
    reveal_strlit("");
    reveal_strlit(".txt");
    reveal_with_fuel(decimal, 4);
    reveal_with_fuel(digits_value, 4);
    let name = name_of(j);
    let digits = name.subrange(4, 7);
    if j < 10 {
        assert(d.len() == 1);
        assert(digits =~= seq!['0', '0'] + d);
        assert(digits.drop_last() =~= seq!['0', '0']);
        assert(seq!['0', '0'].drop_last() =~= seq!['0']);
        assert(seq!['0'].drop_last() =~= Seq::empty());
        assert(d.drop_last() =~= Seq::empty());
    } else if j < 100 {
        assert(d.len() == 2);
        assert(digits =~= seq!['0'] + d);
        assert(digits.drop_last() =~= seq!['0'] + d.drop_last());
        assert(digits.drop_last().drop_last() =~= seq!['0']);
        assert(seq!['0'].drop_last() =~= Seq::empty());
        assert(d.drop_last().drop_last() =~= Seq::empty());
    } else {
        assert(d.len() == 3);
        assert(digits =~= d);
    }
    assert(name.subrange(0, 4) =~= seq!['d', 'o', 'c', '_']);
    assert(name.subrange(7, 11) =~= seq!['.', 't', 'x', 't']);
}

/// A number is followed by one that three shifts make of it.
pub proof fn lemma_follows(x: u64, a: u64, b: u64, n: int)
    requires
        a == x ^ (x << 13),
        b == a ^ (a >> 7),
    ensures
        shifted(x) == b ^ (b << 17),
        after(x, 0) == x,
        n > 0 ==> after(x, n) == shifted(after(x, n - 1)),
{
}

} // verus!
