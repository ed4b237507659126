//! Tokens: atoms of words, lower case, and the parts of identifiers.

use std::collections::HashSet;
use std::ops::Range;

use ripindex::tokenizer::{atoms, identifier_parts, tokenize, tokens_of_words, Token};

fn terms(text: &str) -> Vec<(String, u32)> {
    tokenize(text).into_iter().map(|t| (t.term, t.position)).collect()
}

fn just_terms(text: &str) -> Vec<String> {
    tokenize(text).into_iter().map(|t| t.term).collect()
}

#[test]
fn plain_words_get_consecutive_positions() {
    assert_eq!(
        terms("the quick brown fox"),
        vec![("the".into(), 0), ("quick".into(), 1), ("brown".into(), 2), ("fox".into(), 3)]
    );
}

#[test]
fn lowercases() {
    assert_eq!(just_terms("Hello WORLD Mixed"), vec!["hello", "world", "mixed"]);
}

#[test]
fn snake_case_emits_whole_then_parts_at_same_position() {
    assert_eq!(
        terms("snake_case_name"),
        vec![("snake_case_name".into(), 0), ("snake".into(), 0), ("case".into(), 0), ("name".into(), 0)]
    );
}

#[test]
fn camel_case() {
    assert_eq!(just_terms("parseHttpResponse"), vec!["parsehttpresponse", "parse", "http", "response"]);
    assert_eq!(just_terms("XMLHttpRequest"), vec!["xmlhttprequest", "xml", "http", "request"]);
    assert_eq!(just_terms("getX"), vec!["getx", "get", "x"]);
    assert_eq!(just_terms("iOS"), vec!["ios", "i", "os"]);
}

#[test]
fn acronyms_and_digits() {
    assert_eq!(just_terms("parseHTTPResponse"), vec!["parsehttpresponse", "parse", "http", "response"]);
    assert_eq!(just_terms("utf8Decode"), vec!["utf8decode", "utf8", "decode"]);
    assert_eq!(just_terms("parseHTTP2Response"), vec!["parsehttp2response", "parse", "http2", "response"]);
    assert_eq!(just_terms("sha256"), vec!["sha256"]);
    assert_eq!(just_terms("base64url"), vec!["base64url"]);
}

#[test]
fn single_part_identifiers_are_not_duplicated() {
    assert_eq!(just_terms("Foo"), vec!["foo"]);
    assert_eq!(just_terms("HTTP"), vec!["http"]);
    assert_eq!(just_terms("foo"), vec!["foo"]);
}

#[test]
fn leading_and_trailing_underscores() {
    assert_eq!(just_terms("__init__"), vec!["__init__", "init"]);
    assert_eq!(just_terms("_private"), vec!["_private", "private"]);
    assert_eq!(just_terms("___"), Vec::<String>::new());
}

#[test]
fn repeated_parts_are_emitted_once() {
    assert_eq!(just_terms("a_a"), vec!["a_a", "a"]);
    assert_eq!(just_terms("Foo_foo"), vec!["foo_foo", "foo"]);
}

#[test]
fn mixed_snake_and_camel() {
    assert_eq!(
        just_terms("read_HttpHeader_v2"),
        vec!["read_httpheader_v2", "read", "http", "header", "v2"]
    );
}

#[test]
fn punctuation_splits_atoms_and_advances_positions() {
    assert_eq!(
        terms("std::fs::read_to_string(path)"),
        vec![
            ("std".into(), 0),
            ("fs".into(), 1),
            ("read_to_string".into(), 2),
            ("read".into(), 2),
            ("to".into(), 2),
            ("string".into(), 2),
            ("path".into(), 3),
        ]
    );
    assert_eq!(just_terms("a.b.c"), vec!["a", "b", "c"]);
    assert_eq!(just_terms("don't"), vec!["don", "t"]);
    assert_eq!(just_terms("x-y"), vec!["x", "y"]);
    assert_eq!(just_terms("foo@bar.com"), vec!["foo", "bar", "com"]);
    assert_eq!(just_terms("3.14"), vec!["3", "14"]);
}

#[test]
fn pure_punctuation_produces_nothing() {
    assert_eq!(just_terms("... --- !!! ;;; ()[]{}"), Vec::<String>::new());
    assert_eq!(just_terms(""), Vec::<String>::new());
    assert_eq!(just_terms("   \n\t "), Vec::<String>::new());
}

#[test]
fn code_line() {
    assert_eq!(
        just_terms("let x = Vec::<u8>::with_capacity(16); // comment"),
        vec!["let", "x", "vec", "u8", "with_capacity", "with", "capacity", "16", "comment"]
    );
}

#[test]
fn unicode_letters_and_folding() {
    assert_eq!(just_terms("naïve café Ünïcödé"), vec!["naïve", "café", "ünïcödé"]);
    assert_eq!(just_terms("ΑΒΓ Straße"), vec!["αβγ", "straße"]);
    assert_eq!(just_terms("Привет_мир"), vec!["привет_мир", "привет", "мир"]);
}

#[test]
fn unicode_camel_case() {
    assert_eq!(just_terms("überFoo"), vec!["überfoo", "über", "foo"]);
    assert_eq!(just_terms("ПриветМир"), vec!["приветмир", "привет", "мир"]);
}

#[test]
fn combining_marks_stay_attached() {
    // "e" + COMBINING ACUTE ACCENT — not a cut point, not a case boundary.
    assert_eq!(just_terms("cafe\u{301} ok"), vec!["cafe\u{301}", "ok"]);
}

#[test]
fn cjk_and_mixed_scripts() {
    // UAX #29 treats each Han character as its own word.
    assert_eq!(just_terms("日本語 text"), vec!["日", "本", "語", "text"]);
    // Hangul syllables join into one word.
    assert_eq!(just_terms("한국어"), vec!["한국어"]);
}

#[test]
fn emoji_and_symbols_are_skipped() {
    assert_eq!(just_terms("hello 👋 world ✓"), vec!["hello", "world"]);
}

#[test]
fn spans_cover_the_whole_atom_for_parts() {
    let toks: Vec<Token> = tokenize("  fooBar baz");
    assert_eq!(toks[0].term, "foobar");
    assert_eq!(toks[0].span, 2..8);
    assert_eq!(toks[1].term, "foo");
    assert_eq!(toks[1].span, 2..8);
    assert_eq!(toks[2].term, "bar");
    assert_eq!(toks[2].span, 2..8);
    assert_eq!(toks[3].term, "baz");
    assert_eq!(toks[3].span, 9..12);
}

#[test]
fn atoms_follow_each_other_and_hold_letters_or_digits() {
    let text = "fn parse_http(é1) -> 日本 { _x__ \u{1f600} don't }";
    let spans: Vec<_> = atoms(text).iter().map(|a| a.span.clone()).collect();
    assert!(spans.len() > 4);
    assert!(spans.windows(2).all(|w| w[0].end <= w[1].start), "{spans:?}");
    for s in &spans {
        assert!(s.start < s.end && text[s.clone()].chars().any(|c| c.is_alphanumeric()));
    }
    let tokens: Vec<Token> = tokenize(text);
    assert!(tokens.iter().all(|t| spans.contains(&t.span)));
}

#[test]
fn spans_are_correct_with_multibyte_prefix() {
    let text = "日本 Ünï_x";
    let toks: Vec<Token> = tokenize(text);
    let atom = &toks[2];
    assert_eq!(atom.term, "ünï_x");
    assert_eq!(&text[atom.span.clone()], "Ünï_x");
}

#[test]
fn atoms_matches_tokenize_minus_parts() {
    // The query path must segment exactly like the index path.
    let inputs = [
        "snake_case parseHttp foo.bar std::fs::read",
        "naïve_café ÜberFoo__x 3.14 a-b-c",
        "日本語 한국어 Привет_мир cafe\u{301}",
        "__init__ ___ !!! x",
    ];
    for text in inputs {
        let from_atoms: Vec<(String, u32, Range<usize>)> =
            atoms(text).into_iter().map(|t| (t.term, t.position, t.span)).collect();
        // Whole-atom tokens from `tokenize` are exactly the first token at each position.
        let mut seen = HashSet::new();
        let wholes: Vec<(String, u32, Range<usize>)> = tokenize(text)
            .into_iter()
            .filter(|t| seen.insert(t.position))
            .map(|t| (t.term, t.position, t.span))
            .collect();
        assert_eq!(from_atoms, wholes, "input: {text:?}");
    }
    let q: Vec<String> = atoms("snake_case").into_iter().map(|t| t.term).collect();
    assert_eq!(q, vec!["snake_case"]);
}

#[test]
fn identifier_parts_direct() {
    assert_eq!(identifier_parts("snake_case"), vec!["snake", "case"]);
    assert_eq!(identifier_parts("parseHTTPResponse"), vec!["parse", "HTTP", "Response"]);
    assert_eq!(identifier_parts("utf8Decode"), vec!["utf8", "Decode"]);
    assert_eq!(identifier_parts("__init__"), vec!["init"]);
    assert_eq!(identifier_parts("sha256"), Vec::<&str>::new());
    assert_eq!(identifier_parts("Foo"), Vec::<&str>::new());
    assert_eq!(identifier_parts("HTTP"), Vec::<&str>::new());
}

#[test]
fn words_become_tokens_at_their_offsets() {
    let words = [(0usize, "Foo_bar"), (7, " "), (8, "x")];
    let out = tokens_of_words(&words, true);
    let seen: Vec<(&str, u32, Range<usize>)> =
        out.iter().map(|t| (t.term.as_str(), t.position, t.span.clone())).collect();
    assert_eq!(
        seen,
        vec![("foo_bar", 0, 0..7), ("foo", 0, 0..7), ("bar", 0, 0..7), ("x", 1, 8..9)]
    );
    let whole: Vec<String> = tokens_of_words(&words, false).into_iter().map(|t| t.term).collect();
    assert_eq!(whole, vec!["foo_bar", "x"]);
}

#[test]
fn every_term_is_its_own_lower_case() {
    for text in ["ÀB cD_eF", "İstanbul ΣΑΣ", "HTTP2Server"] {
        for t in tokenize(text) {
            assert_eq!(t.term.to_lowercase(), t.term, "{text}");
        }
    }
}
