//! Comparing sentences word by word, and documents sentence by sentence.
use vstd::prelude::*;
use crate::align::{
    alignment,
    all_equal,
    distance,
    edit_distance,
    firsts,
    lemma_align_self,
    lemma_backtrace_sound,
    lemma_distance_bound,
    lemma_distance_symmetric,
    max_nat,
    script_cost,
    seconds,
    views,
    DiffElement,
};
use crate::parse::{segment_units, sentences, words_of, Sentence};

verus! {

/// The number of bits set in `x`.
pub open spec fn ones(x: u64) -> nat
    decreases x,
{
    if x == 0 {
        0
    } else {
        (x % 2) as nat + ones(x / 2)
    }
}

proof fn lemma_ones_le(x: u64)
    ensures
        ones(x) <= x,
    decreases x,
{
    if x > 0 {
        lemma_ones_le(x / 2);
    }
}

/// Clearing bits never adds set bits.
pub proof fn lemma_ones_and(a: u64, b: u64)
    ensures
        ones(a & b) <= ones(a),
        ones(a & b) <= ones(b),
    decreases a + b,
{
    assert((a & b) == (b & a)) by (bit_vector);
    if a != 0 && b != 0 {
        assert((a & b) / 2 == (a / 2) & (b / 2)) by (bit_vector);
        assert((a & b) % 2 <= a % 2) by (bit_vector);
        assert((a & b) % 2 <= b % 2) by (bit_vector);
        lemma_ones_and(a / 2, b / 2);
    } else if a == 0 {
        assert(a & b == 0) by (bit_vector)
            requires
                a == 0,
        ;
    } else {
        assert(a & b == 0) by (bit_vector)
            requires
                b == 0,
        ;
    }
}

/// The number of bits set in `x`.
fn count_ones(x: u64) -> (r: u64)
    ensures
        r == ones(x),
{
    let mut y = x;
    let mut c: u64 = 0;
    proof {
        lemma_ones_le(x);
    }
    while y > 0
        invariant
            c + ones(y) == ones(x),
            ones(x) <= x,
        decreases y,
    {
        c = c + y % 2;
        y = y / 2;
    }
    c
}

/// Whether two fingerprints share fewer than half of the distinct words of
/// the sentence that has fewer.
pub open spec fn too_different_masks(h1: u64, h2: u64) -> bool {
    let n1 = ones(h1);
    let n2 = ones(h2);
    let common = ones(h1 & h2);
    let m = if n1 <= n2 {
        n1
    } else {
        n2
    };
    m - common > m / 2
}

/// Whether two sentences are too unlike to be worth aligning word by word.
pub fn too_different(text1: &Sentence, text2: &Sentence) -> (r: bool)
    ensures
        r == too_different_masks(text1.hash_words as u64, text2.hash_words as u64),
{
    let h1 = text1.hash_words as u64;
    let h2 = text2.hash_words as u64;
    let n1 = count_ones(h1);
    let n2 = count_ones(h2);
    let common = count_ones(h1 & h2);
    proof {
        lemma_ones_and(h1, h2);
    }
    let m = if n1 <= n2 {
        n1
    } else {
        n2
    };
    m - common > m / 2
}

/// A sentence is never too different from itself.
pub proof fn lemma_not_too_different_self(s: Sentence)
    ensures
        !too_different_masks(s.hash_words as u64, s.hash_words as u64),
{
    let h = s.hash_words as u64;
    assert(h & h == h) by (bit_vector);
}

/// The cost of aligning two words: nothing when they are equal, else one.
pub open spec fn unit_cost(x: Seq<char>, y: Seq<char>) -> nat {
    if x == y {
        0
    } else {
        1
    }
}

/// `unit_cost` as a function value, the substitution cost of word alignment.
pub open spec fn word_cost() -> spec_fn(Seq<char>, Seq<char>) -> nat {
    |x: Seq<char>, y: Seq<char>| unit_cost(x, y)
}

/// The word-level distance between two texts: one per inserted, deleted or
/// replaced word.
pub open spec fn word_distance(a: Seq<char>, b: Seq<char>) -> nat {
    distance(words_of(a), words_of(b), word_cost(), 1)
}

/// The cost of aligning two sentences, given as (text, fingerprint): nothing
/// when they are equal; both word counts when they are too different; else
/// their word-level distance.
pub open spec fn sentence_cost(x: (Seq<char>, i64), y: (Seq<char>, i64)) -> nat {
    if x == y {
        0
    } else if too_different_masks(x.1 as u64, y.1 as u64) {
        words_of(x.0).len() + words_of(y.0).len()
    } else {
        word_distance(x.0, y.0)
    }
}

/// `sentence_cost` as a function value, the substitution cost of sentence
/// alignment.
pub open spec fn sentence_cost_fn() -> spec_fn((Seq<char>, i64), (Seq<char>, i64)) -> nat {
    |x: (Seq<char>, i64), y: (Seq<char>, i64)| sentence_cost(x, y)
}

/// The word-level script that comparing two sentences gives.
pub open spec fn sentence_script(x: (Seq<char>, i64), y: (Seq<char>, i64)) -> Seq<
    DiffElement<Seq<char>>,
> {
    if x == y {
        all_equal(words_of(x.0))
    } else if too_different_masks(x.1 as u64, y.1 as u64) {
        seq![DiffElement::Different(x.0, y.0)]
    } else {
        alignment(words_of(x.0), words_of(y.0), word_cost(), 1)
    }
}

/// Whether two strings hold the same characters.
fn same_text(a: &str, b: &str) -> (r: bool)
    ensures
        r == (a@ == b@),
{
    let ca = crate::parse::chars_of(a);
    let cb = crate::parse::chars_of(b);
    if ca.len() != cb.len() {
        return false;
    }
    let mut i: usize = 0;
    while i < ca.len()
        invariant
            i <= ca.len(),
            ca.len() == cb.len(),
            ca@ == a@,
            cb@ == b@,
            forall|t: int| 0 <= t < i ==> ca@[t] == cb@[t],
        decreases ca.len() - i,
    {
        if ca[i] != cb[i] {
            proof {
                assert(a@[i as int] != b@[i as int]);
            }
            return false;
        }
        i += 1;
    }
    proof {
        assert(ca@ =~= cb@);
    }
    true
}

/// Compares two sentences word by word: returns the cost of the alignment
/// and the word-level edit script.
pub fn compare_sentences<'a>(text1: &'a Sentence, text2: &'a Sentence) -> (r: (
    u64,
    Vec<DiffElement<&'a str>>,
))
    requires
        text1.wf(),
        text2.wf(),
    ensures
        r.0 == sentence_cost(text1@, text2@),
        views(r.1@) == sentence_script(text1@, text2@),
{
    if text1.eq(text2) {
        let words = text1.words();
        let mut script: Vec<DiffElement<&'a str>> = Vec::new();
        let mut t: usize = 0;
        while t < words.len()
            invariant
                t <= words.len(),
                views(words@) == words_of(text1.content@),
                views(script@) == all_equal(views(words@).take(t as int)),
            decreases words.len() - t,
        {
            proof {
                assert(views(script@.push(DiffElement::Equal(words[t as int]))) =~= views(
                    script@,
                ).push(DiffElement::Equal(words[t as int]@)));
                assert(all_equal(views(words@).take(t + 1)) =~= all_equal(
                    views(words@).take(t as int),
                ).push(DiffElement::Equal(views(words@)[t as int])));
            }
            script.push(DiffElement::Equal(words[t]));
            t += 1;
        }
        proof {
            assert(views(words@).take(t as int) =~= views(words@));
        }
        return (0, script);
    } else if too_different(text1, text2) {
        let cost = text1.n_words as u64 + text2.n_words as u64;
        let mut script: Vec<DiffElement<&'a str>> = Vec::new();
        script.push(DiffElement::Different(text1.content.as_str(), text2.content.as_str()));
        proof {
            assert(views(script@) =~= seq![DiffElement::Different(text1.content@, text2.content@)]);
        }
        return (cost, script);
    }
    let w1 = text1.words();
    let w2 = text2.words();
    proof {
        assert(views(w1@).len() == w1.len());
        assert(views(w2@).len() == w2.len());
    }
    align_words(&w1, &w2)
}

/// Aligns two lists of words: inserting, deleting or replacing a word costs
/// one. Returns the total cost and the edit script.
pub fn align_words<'a>(words1: &Vec<&'a str>, words2: &Vec<&'a str>) -> (r: (
    u64,
    Vec<DiffElement<&'a str>>,
))
    requires
        words1.len() + words2.len() <= u64::MAX,
    ensures
        r.0 == distance(views(words1@), views(words2@), word_cost(), 1),
        views(r.1@) == alignment(views(words1@), views(words2@), word_cost(), 1),
        firsts(views(r.1@)) == views(words1@),
        seconds(views(r.1@)) == views(words2@),
        script_cost(views(r.1@), word_cost(), 1) == r.0,
{
    let r = edit_distance(words1, words2, same_word, word_unit_cost, 1, Ghost(word_cost()));
    proof {
        let a = views(words1@);
        let b = views(words2@);
        lemma_backtrace_sound(a, b, word_cost(), 1, a.len(), b.len());
        assert(a.take(a.len() as int) =~= a);
        assert(b.take(b.len() as int) =~= b);
    }
    r
}

fn same_word(x: &&str, y: &&str) -> (e: bool)
    ensures
        e == (x@ == y@),
{
    same_text(*x, *y)
}

fn word_unit_cost(x: &&str, y: &&str) -> (d: u64)
    ensures
        d == unit_cost(x@, y@),
{
    if same_text(*x, *y) {
        0
    } else {
        1
    }
}

fn same_sentence(x: &&Sentence, y: &&Sentence) -> (e: bool)
    ensures
        e == (x@ == y@),
{
    (*x).eq(*y)
}

fn sentence_pair_cost(x: &&Sentence, y: &&Sentence) -> (d: u64)
    requires
        x.wf(),
        y.wf(),
    ensures
        d == sentence_cost(x@, y@),
{
    compare_sentences(*x, *y).0
}

fn refs_of<'a>(s: &'a Vec<Sentence>) -> (r: Vec<&'a Sentence>)
    ensures
        r.len() == s.len(),
        forall|i: int| 0 <= i < r.len() ==> *r[i] == s[i],
        views(r@) == views(s@),
{
    let mut r: Vec<&'a Sentence> = Vec::new();
    let mut i: usize = 0;
    while i < s.len()
        invariant
            i <= s.len(),
            r.len() == i,
            forall|t: int| 0 <= t < i ==> *r[t] == s[t],
        decreases s.len() - i,
    {
        r.push(&s[i]);
        i += 1;
    }
    proof {
        assert(views(r@) =~= views(s@));
    }
    r
}

/// Aligns two lists of sentences: inserting or deleting a sentence costs 4,
/// aligning two sentences costs what `compare_sentences` finds.
pub fn diff_sentences<'a>(sentences1: &'a Vec<Sentence>, sentences2: &'a Vec<Sentence>) -> (r: Vec<
    DiffElement<&'a Sentence>,
>)
    requires
        forall|i: int| 0 <= i < sentences1.len() ==> (#[trigger] sentences1[i]).wf(),
        forall|i: int| 0 <= i < sentences2.len() ==> (#[trigger] sentences2[i]).wf(),
        4 * (sentences1.len() + sentences2.len()) <= u64::MAX,
    ensures
        views(r@) == alignment(views(sentences1@), views(sentences2@), sentence_cost_fn(), 4),
        firsts(views(r@)) == views(sentences1@),
        seconds(views(r@)) == views(sentences2@),
{
    let refs1 = refs_of(sentences1);
    let refs2 = refs_of(sentences2);
    proof {
        assert forall|i: int, j: int|
            0 <= i < refs1.len() && 0 <= j < refs2.len() implies #[trigger] refs1[i].wf()
            && #[trigger] refs2[j].wf() by {
            assert(sentences1[i].wf());
            assert(sentences2[j].wf());
        }
    }
    let r = edit_distance(
        &refs1,
        &refs2,
        same_sentence,
        sentence_pair_cost,
        4,
        Ghost(sentence_cost_fn()),
    ).1;
    proof {
        let a = views(sentences1@);
        let b = views(sentences2@);
        lemma_backtrace_sound(a, b, sentence_cost_fn(), 4, a.len(), b.len());
        assert(a.take(a.len() as int) =~= a);
        assert(b.take(b.len() as int) =~= b);
    }
    r
}

/// A copy of `s`, field by field.
fn copy_sentence(s: &Sentence) -> (r: Sentence)
    ensures
        r == *s,
{
    Sentence { content: s.content.clone(), n_words: s.n_words, hash_words: s.hash_words }
}

fn owned_step(e: &DiffElement<&Sentence>) -> (r: DiffElement<Sentence>)
    ensures
        r@ == e@,
{
    match e {
        DiffElement::Equal(x) => DiffElement::Equal(copy_sentence(x)),
        DiffElement::Insert1(x) => DiffElement::Insert1(copy_sentence(x)),
        DiffElement::Insert2(x) => DiffElement::Insert2(copy_sentence(x)),
        DiffElement::Different(x, y) => DiffElement::Different(copy_sentence(x), copy_sentence(y)),
    }
}

/// Compares two documents: splits both into sentences and aligns them.
/// Returns the sentence-level edit script.
pub fn compare(text1: String, text2: String) -> (r: Vec<DiffElement<Sentence>>)
    requires
        4 * (text1@.len() + text2@.len()) <= u64::MAX,
    ensures
        views(r@) == alignment(segment_units(text1@), segment_units(text2@), sentence_cost_fn(), 4),
{
    let sentences1 = sentences(text1);
    let sentences2 = sentences(text2);
    let script = diff_sentences(&sentences1, &sentences2);
    let mut r: Vec<DiffElement<Sentence>> = Vec::new();
    let mut t: usize = 0;
    while t < script.len()
        invariant
            t <= script.len(),
            views(r@) == views(script@).take(t as int),
        decreases script.len() - t,
    {
        let e = owned_step(&script[t]);
        proof {
            assert(e@ == views(script@)[t as int]);
            assert(views(r@.push(e)) =~= views(r@).push(e@));
            assert(views(r@.push(e)) =~= views(script@).take(t + 1));
        }
        r.push(e);
        t += 1;
    }
    proof {
        assert(views(script@).take(t as int) =~= views(script@));
    }
    r
}

/// Comparing a document with itself marks every sentence as equal.
pub proof fn lemma_compare_self(text: Seq<char>)
    ensures
        alignment(segment_units(text), segment_units(text), sentence_cost_fn(), 4) == all_equal(
            segment_units(text),
        ),
        distance(segment_units(text), segment_units(text), sentence_cost_fn(), 4) == 0,
{
    assert forall|x: (Seq<char>, i64)| #[trigger] sentence_cost_fn()(x, x) == 0 by {}
    lemma_align_self(segment_units(text), sentence_cost_fn(), 4);
}

/// Two texts are as many words apart in either order.
pub proof fn lemma_word_distance_symmetric(a: Seq<char>, b: Seq<char>)
    ensures
        word_distance(a, b) == word_distance(b, a),
{
    assert forall|x: Seq<char>, y: Seq<char>| #[trigger] word_cost()(x, y) == word_cost()(y, x) by {}
    lemma_distance_symmetric(words_of(a), words_of(b), word_cost(), 1);
}

/// Two texts are at most as many words apart as the longer one has words.
pub proof fn lemma_word_distance_bound(a: Seq<char>, b: Seq<char>)
    ensures
        word_distance(a, b) <= max_nat(words_of(a).len(), words_of(b).len()),
{
    assert forall|x: Seq<char>, y: Seq<char>| #[trigger] word_cost()(x, y) <= 1 by {}
    lemma_distance_bound(words_of(a), words_of(b), word_cost(), 1);
}

/// Aligning two sentences costs the same in either order.
pub proof fn lemma_sentence_cost_symmetric(x: (Seq<char>, i64), y: (Seq<char>, i64))
    ensures
        sentence_cost(x, y) == sentence_cost(y, x),
{
    let h1 = x.1 as u64;
    let h2 = y.1 as u64;
    assert(h1 & h2 == h2 & h1) by (bit_vector);
    lemma_word_distance_symmetric(x.0, y.0);
}

/// Two documents are as far apart, sentence by sentence, in either order.
pub proof fn lemma_compare_cost_symmetric(text1: Seq<char>, text2: Seq<char>)
    ensures
        distance(segment_units(text1), segment_units(text2), sentence_cost_fn(), 4) == distance(
            segment_units(text2),
            segment_units(text1),
            sentence_cost_fn(),
            4,
        ),
{
    assert forall|x: (Seq<char>, i64), y: (Seq<char>, i64)|
        #[trigger] sentence_cost_fn()(x, y) == sentence_cost_fn()(y, x) by {
        lemma_sentence_cost_symmetric(x, y);
    }
    lemma_distance_symmetric(segment_units(text1), segment_units(text2), sentence_cost_fn(), 4);
}

} // verus!
