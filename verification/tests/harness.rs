//! The states of the crash test.

use ripindex::harness::{corpus, doc_count, doc_words, expected, first_wrong, Tally, XorShift};

#[test]
fn random_numbers_by_seed() {
    let mut x = XorShift::new(1);
    assert_eq!(x.next(), 15860402102123842989);
    assert_eq!(x.next(), 7273575876580499574);
    assert_eq!(x.next(), 8865281517519135030);
    assert_eq!(XorShift::new(0).x, 1);
    let mut y = XorShift::new(1);
    assert_eq!(y.below(0), 0);
    assert_eq!(y.below(10), 4);
}

#[test]
fn numbers_never_run_dry() {
    for seed in 0..50 {
        let mut x = XorShift::new(seed);
        for _ in 0..50 {
            assert_ne!(x.next(), 0);
        }
    }
}

#[test]
fn corpus_of_a_state() {
    assert_eq!([doc_count(1), doc_count(2), doc_count(3), doc_count(6)], [27, 34, 41, 22]);
    let docs = corpus(2);
    assert_eq!(docs.len(), 34);
    assert_eq!(
        docs[0],
        (
            "doc_000.txt".to_string(),
            "state2 alpha beta HttpResponse foo_foo parse_http_response\n".to_string()
        )
    );
    assert_eq!(docs[1].1, "state2 alpha XMLHttpRequest sha256 parse_http_response\n");
    assert_eq!(docs[12].0, "doc_012.txt");
    assert_eq!(
        doc_words(3, 1).join(" "),
        "alpha utf8Decode 日本語 parse_http_response 日本語 naïve zeta utf8Decode"
    );
}

#[test]
fn expectations_of_a_state() {
    let one = expected(1);
    assert_eq!((one.docs.len(), one.beta_docs, one.phrase_docs), (27, 21, 12));
    let two = expected(2);
    assert_eq!((two.docs.len(), two.beta_docs, two.phrase_docs), (34, 24, 14));
    let three = expected(3);
    assert_eq!((three.docs.len(), three.beta_docs, three.phrase_docs), (41, 31, 18));
    // Parts of an identifier stand at the place of the whole.
    assert_eq!(two.docs[0], ("doc_000.txt".to_string(), 6));

    let checks = two.checks(2);
    let texts: Vec<&str> = checks.iter().map(|(t, _)| t.as_str()).collect();
    assert_eq!(texts, ["state2", "alpha", "beta", "\"alpha beta\"", "state3", "alpha -beta"]);
    let counts: Vec<usize> = checks.iter().map(|(_, n)| *n).collect();
    assert_eq!(counts, [34, 34, 24, 14, 0, 10]);
    assert_eq!(first_wrong(&checks, &counts), None);
    assert_eq!(first_wrong(&checks, &vec![34, 34, 23, 14, 1, 10]), Some(2));
}

#[test]
fn tally_takes_old_and_new_states_only() {
    let mut t = Tally::new(2);
    assert!(t.take(5, Some(2)));
    assert_eq!((t.prev, t.kept_old, t.took_new), (2, 1, 0));
    assert!(t.take(5, Some(5)));
    assert_eq!((t.prev, t.kept_old, t.took_new), (5, 1, 1));
    let before = t;
    assert!(!t.take(7, Some(2)));
    assert!(!t.take(7, None));
    assert_eq!(t, before);
    let mut rng = XorShift::new(1);
    assert_eq!(t.target(&mut rng), 5 + 1 + 15860402102123842989 % 3);
}
