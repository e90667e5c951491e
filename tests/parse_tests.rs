use tdiff::parse::{normalize_sentence, sentences, Sentence};

#[test]
fn test_trim_space() {
    assert!(normalize_sentence("Hello world") == "Hello world");
    assert!(normalize_sentence("   Hello world    ") == "Hello world");
    assert!(normalize_sentence("   Hello    world    ") == "Hello world");
    assert!(normalize_sentence("\tHello\n\nworld    ") == "Hello world");
}

#[test]
fn test_sentences() {
    assert!(sentences("Hello world. My name is tdiff.\n\n\n".to_string()).len() == 2);
}

#[test]
fn sentences_are_normalized_and_empty_pieces_dropped() {
    let s = sentences("Hello   world. My\tname is X.\n\n\n".to_string());
    assert_eq!(s.len(), 2);
    assert_eq!(s[0].content, "Hello world");
    assert_eq!(s[1].content, "My name is X");
    assert_eq!(s[0].n_words, 2);
    assert_eq!(s[1].n_words, 4);
}

#[test]
fn sentences_of_empty_text() {
    assert!(sentences(String::new()).is_empty());
    assert!(sentences(" . .. \n".to_string()).is_empty());
}

#[test]
fn sentences_keep_text_after_last_dot() {
    let s = sentences("One. Two".to_string());
    assert_eq!(s.len(), 2);
    assert_eq!(s[1].content, "Two");
}

#[test]
fn normalize_unicode_whitespace() {
    assert_eq!(normalize_sentence("\u{3000}a\u{a0}\u{2009}b\u{85}"), "a b");
    assert_eq!(normalize_sentence(""), "");
    assert_eq!(normalize_sentence("  \n "), "");
}

#[test]
fn mk_sentence_counts_and_fingerprints_words() {
    let s = Sentence::mk_sentence("Hello world".to_string());
    assert_eq!(s.content, "Hello world");
    assert_eq!(s.n_words, 2);
    assert_eq!(s.hash_words.count_ones(), 2);
    let t = Sentence::mk_sentence("world Hello world".to_string());
    assert_eq!(t.n_words, 3);
    assert_eq!(t.hash_words, s.hash_words);
    assert!(s.hash_words >= 0);
    let e = Sentence::mk_sentence(String::new());
    assert_eq!(e.n_words, 0);
    assert_eq!(e.hash_words, 0);
}

#[test]
fn words_split_on_whitespace() {
    let s = Sentence::mk_sentence("  a bc\t d ".to_string());
    assert_eq!(s.words(), vec!["a", "bc", "d"]);
}

#[test]
fn sentence_equality_compares_text() {
    let a = Sentence::mk_sentence("Hello world".to_string());
    let b = Sentence::mk_sentence("Hello world".to_string());
    let c = Sentence::mk_sentence("Hello there".to_string());
    assert!(a == b);
    assert!(a != c);
}
