use tdiff::align::DiffElement;
use tdiff::compare::{align_words, compare, compare_sentences, diff_sentences, too_different};
use tdiff::parse::{sentences, Sentence};

fn to_s(s: &str) -> Sentence {
    Sentence::mk_sentence(s.to_string())
}

#[test]
fn test_compare_sentences() {
    assert!(compare_sentences(&to_s("Hello world"), &to_s("Hello world")).0 == 0);
    assert!(compare_sentences(&to_s("Hello world"), &to_s("Hello cruel world")).0 == 1);
    assert!(compare_sentences(&to_s("Hello world"), &to_s("Goodbye cruel world")).0 == 2);
    // These two share no word, so the sentence comparison charges both word
    // counts; the word-level alignment itself costs 3.
    assert!(align_words(&vec!["Hello", "world"], &vec!["Goodbye", "mediocre", "Paris"]).0 == 3);
}

#[test]
fn align_words_concrete_costs() {
    let hw = vec!["Hello", "world"];
    assert_eq!(align_words(&hw, &vec!["Hello", "world"]).0, 0);
    assert_eq!(align_words(&hw, &vec!["Hello", "cruel", "world"]).0, 1);
    assert_eq!(align_words(&hw, &vec!["Goodbye", "cruel", "world"]).0, 2);
    assert_eq!(align_words(&hw, &vec!["Goodbye", "mediocre", "Paris"]).0, 3);
}

#[test]
fn align_words_script_for_insertion() {
    let (cost, script) = align_words(&vec!["Hello", "world"], &vec!["Hello", "cruel", "world"]);
    assert_eq!(cost, 1);
    assert_eq!(script.len(), 3);
    assert!(matches!(script[0], DiffElement::Equal("Hello")));
    assert!(matches!(script[1], DiffElement::Insert2("cruel")));
    assert!(matches!(script[2], DiffElement::Equal("world")));
}

#[test]
fn align_words_tie_break_prefers_substitution() {
    let (cost, script) = align_words(&vec!["a"], &vec!["b"]);
    assert_eq!(cost, 1);
    assert_eq!(script.len(), 1);
    assert!(matches!(script[0], DiffElement::Different("a", "b")));
    let (cost, script) = align_words(&vec!["x", "a"], &vec!["a"]);
    assert_eq!(cost, 1);
    assert!(matches!(script[0], DiffElement::Insert1("x")));
    assert!(matches!(script[1], DiffElement::Equal("a")));
}

#[test]
fn align_words_empty_sequences() {
    let empty: Vec<&str> = Vec::new();
    let (cost, script) = align_words(&empty, &empty);
    assert_eq!(cost, 0);
    assert!(script.is_empty());
    let (cost, script) = align_words(&vec!["a", "b"], &empty);
    assert_eq!(cost, 2);
    assert!(matches!(script[0], DiffElement::Insert1("a")));
    assert!(matches!(script[1], DiffElement::Insert1("b")));
    let (cost, script) = align_words(&empty, &vec!["c"]);
    assert_eq!(cost, 1);
    assert!(matches!(script[0], DiffElement::Insert2("c")));
}

#[test]
fn align_words_self_is_all_equal() {
    let w = vec!["to", "be", "or", "not", "to", "be"];
    let (cost, script) = align_words(&w, &w);
    assert_eq!(cost, 0);
    assert_eq!(script.len(), w.len());
    for (e, x) in script.iter().zip(w.iter()) {
        assert!(matches!(e, DiffElement::Equal(y) if y == x));
    }
}

#[test]
fn align_words_cost_symmetric() {
    let a = vec!["the", "quick", "brown", "fox"];
    let b = vec!["a", "quick", "red", "fox", "jumps"];
    assert_eq!(align_words(&a, &b).0, align_words(&b, &a).0);
    assert_eq!(align_words(&a, &b).0, 3);
}

#[test]
fn align_words_cost_bounded_by_longer() {
    let a = vec!["p", "q", "r"];
    let b = vec!["s", "t", "u", "v", "w"];
    let cost = align_words(&a, &b).0;
    assert_eq!(cost, 5);
    assert!(cost <= 5);
}

#[test]
fn compare_sentences_too_different_charges_word_counts() {
    let a = to_s("Hello world");
    let b = to_s("Goodbye mediocre Paris");
    assert!(too_different(&a, &b));
    let (cost, script) = compare_sentences(&a, &b);
    assert_eq!(cost, 5);
    assert_eq!(script.len(), 1);
    assert!(matches!(script[0], DiffElement::Different("Hello world", "Goodbye mediocre Paris")));
}

#[test]
fn compare_sentences_equal_lists_words() {
    let a = to_s("Hello big world");
    let b = a.clone();
    let (cost, script) = compare_sentences(&a, &b);
    assert_eq!(cost, 0);
    assert_eq!(script.len(), 3);
    assert!(matches!(script[1], DiffElement::Equal("big")));
}

#[test]
fn compare_sentences_symmetric_cost() {
    let a = to_s("Hello world");
    let b = to_s("Goodbye cruel world");
    assert_eq!(compare_sentences(&a, &b).0, compare_sentences(&b, &a).0);
}

#[test]
fn too_different_never_for_same_sentence() {
    for t in ["Hello world", "a", "", "one two three four five six seven"] {
        let s = to_s(t);
        assert!(!too_different(&s, &s));
    }
    assert!(!too_different(&to_s("Hello world"), &to_s("Hello cruel world")));
}

#[test]
fn compare_document_with_itself() {
    let doc = "Hello world. My name is X.\n\nI like diffs. Goodbye.";
    let script = compare(doc.to_string(), doc.to_string());
    assert_eq!(script.len(), 4);
    for e in &script {
        assert!(matches!(e, DiffElement::Equal(_)));
    }
}

#[test]
fn compare_documents_marks_changes() {
    let a = "Hello world. The cat sat on the mat. Bye.";
    let b = "Hello world. The cat sat on a mat. Completely unrelated words here. Bye.";
    let script = compare(a.to_string(), b.to_string());
    assert_eq!(script.len(), 4);
    assert!(matches!(&script[0], DiffElement::Equal(s) if s.content == "Hello world"));
    assert!(matches!(&script[1], DiffElement::Different(x, y)
        if x.content == "The cat sat on the mat" && y.content == "The cat sat on a mat"));
    assert!(matches!(&script[2], DiffElement::Insert2(s) if s.content == "Completely unrelated words here"));
    assert!(matches!(&script[3], DiffElement::Equal(s) if s.content == "Bye"));
}

#[test]
fn compare_empty_documents() {
    assert!(compare(String::new(), String::new()).is_empty());
    let script = compare("One. Two.".to_string(), String::new());
    assert_eq!(script.len(), 2);
    assert!(matches!(&script[0], DiffElement::Insert1(s) if s.content == "One"));
}

#[test]
fn diff_sentences_on_segmented_lists() {
    let s1 = sentences("A b c. D e f.".to_string());
    let s2 = sentences("A b c. D e f.".to_string());
    let script = diff_sentences(&s1, &s2);
    assert_eq!(script.len(), 2);
    assert!(script.iter().all(|e| matches!(e, DiffElement::Equal(_))));
}
