//! Splitting text into normalized sentences and words.
use std::collections::hash_map::DefaultHasher;
use std::hash::Hasher;
use vstd::prelude::*;
use vstd::std_specs::hash::DefaultHasherAdditionalSpecFns;
use vstd::utf8::encode_utf8;
use crate::align::views;

verus! {

/// The characters of `s`, in order.
pub(crate) fn chars_of(s: &str) -> (r: Vec<char>)
    ensures
        r@ == s@,
{
    let mut r: Vec<char> = Vec::new();
    for ch in it: s.chars()
        invariant
            r@ == it.seq().take(it.index() as int),
    {
        r.push(ch);
    }
    r
}

/// Whether `ch` has the Unicode White_Space property, which is what
/// `char::is_whitespace` decides.
pub open spec fn is_ws(ch: char) -> bool {
    let u = ch as u32;
    (0x09 <= u <= 0x0d) || u == 0x20 || u == 0x85 || u == 0xa0 || u == 0x1680 || (0x2000 <= u
        <= 0x200a) || u == 0x2028 || u == 0x2029 || u == 0x202f || u == 0x205f || u == 0x3000
}

fn is_whitespace(ch: char) -> (r: bool)
    ensures
        r == is_ws(ch),
{
    let u = ch as u32;
    (0x09 <= u && u <= 0x0d) || u == 0x20 || u == 0x85 || u == 0xa0 || u == 0x1680 || (0x2000
        <= u && u <= 0x200a) || u == 0x2028 || u == 0x2029 || u == 0x202f || u == 0x205f || u
        == 0x3000
}

/// The length of the run of non-whitespace characters that starts `s`.
pub open spec fn token_len(s: Seq<char>) -> nat
    decreases s.len(),
{
    if s.len() == 0 || is_ws(s[0]) {
        0
    } else {
        1 + token_len(s.drop_first())
    }
}

/// A leading run of non-whitespace fits in `s`, and is not empty when `s`
/// starts with a non-whitespace character.
pub proof fn lemma_token_len_bound(s: Seq<char>)
    ensures
        token_len(s) <= s.len(),
        s.len() > 0 && !is_ws(s[0]) ==> token_len(s) >= 1,
    decreases s.len(),
{
    if s.len() > 0 && !is_ws(s[0]) {
        lemma_token_len_bound(s.drop_first());
    }
}

/// The whitespace-separated words of `s`, in order.
pub open spec fn words_of(s: Seq<char>) -> Seq<Seq<char>>
    decreases s.len(),
{
    if s.len() == 0 {
        Seq::empty()
    } else if is_ws(s[0]) {
        words_of(s.drop_first())
    } else {
        proof {
            lemma_token_len_bound(s);
        }
        let l = token_len(s) as int;
        seq![s.take(l)] + words_of(s.skip(l))
    }
}

/// The words of `ws` joined by single spaces.
pub open spec fn join_words(ws: Seq<Seq<char>>) -> Seq<char>
    decreases ws.len(),
{
    if ws.len() == 0 {
        Seq::empty()
    } else if ws.len() == 1 {
        ws[0]
    } else {
        join_words(ws.drop_last()) + seq![' '] + ws.last()
    }
}

/// `s` with leading and trailing whitespace removed and every inner run of
/// whitespace replaced by one space.
pub open spec fn normalize(s: Seq<char>) -> Seq<char> {
    join_words(words_of(s))
}

/// The pieces of `s` that the spans `r` mark.
pub open spec fn span_texts(s: Seq<char>, r: Seq<(usize, usize)>) -> Seq<Seq<char>> {
    r.map_values(|p: (usize, usize)| s.subrange(p.0 as int, p.1 as int))
}

proof fn lemma_token_len_run(u: Seq<char>, l: nat)
    requires
        l <= u.len(),
        forall|t: int| 0 <= t < l ==> !is_ws(#[trigger] u[t]),
        l == u.len() || is_ws(u[l as int]),
    ensures
        token_len(u) == l,
    decreases l,
{
    if l > 0 {
        lemma_token_len_run(u.drop_first(), (l - 1) as nat);
    }
}

/// The spans of the words of `s[lo..hi]`: each pair holds where a word
/// starts and where it ends in `s`.
fn word_spans(s: &Vec<char>, lo: usize, hi: usize) -> (r: Vec<(usize, usize)>)
    requires
        lo <= hi <= s.len(),
    ensures
        span_texts(s@, r@) == words_of(s@.subrange(lo as int, hi as int)),
        forall|t: int| 0 <= t < r.len() ==> lo <= (#[trigger] r[t]).0 < r[t].1 <= hi,
        forall|t: int| 0 < t < r.len() ==> r[t - 1].1 < (#[trigger] r[t]).0,
{
    let mut r: Vec<(usize, usize)> = Vec::new();
    let mut i: usize = lo;
    while i < hi
        invariant
            lo <= i <= hi <= s.len(),
            words_of(s@.subrange(lo as int, hi as int)) == span_texts(s@, r@) + words_of(
                s@.subrange(i as int, hi as int),
            ),
            forall|t: int| 0 <= t < r.len() ==> lo <= (#[trigger] r[t]).0 < r[t].1 <= i,
            forall|t: int| 0 < t < r.len() ==> r[t - 1].1 < (#[trigger] r[t]).0,
            r.len() > 0 ==> (r[r.len() - 1].1 == i ==> i == hi || is_ws(s@[i as int])),
        decreases hi - i,
    {
        let ghost u = s@.subrange(i as int, hi as int);
        if is_whitespace(s[i]) {
            proof {
                assert(u.drop_first() =~= s@.subrange(i + 1, hi as int));
            }
            i += 1;
        } else {
            let mut j: usize = i + 1;
            while j < hi && !is_whitespace(s[j])
                invariant
                    i < j <= hi <= s.len(),
                    forall|t: int| i <= t < j ==> !is_ws(#[trigger] s@[t]),
                decreases hi - j,
            {
                j += 1;
            }
            proof {
                lemma_token_len_run(u, (j - i) as nat);
                assert(u.take(j - i) =~= s@.subrange(i as int, j as int));
                assert(u.skip(j - i) =~= s@.subrange(j as int, hi as int));
                assert(span_texts(s@, r@.push((i, j))) =~= span_texts(s@, r@).push(
                    s@.subrange(i as int, j as int),
                ));
                assert(span_texts(s@, r@) + words_of(u) =~= span_texts(s@, r@.push((i, j)))
                    + words_of(s@.subrange(j as int, hi as int)));
            }
            r.push((i, j));
            i = j;
        }
    }
    proof {
        assert(words_of(s@.subrange(i as int, hi as int)) =~= Seq::<Seq<char>>::empty());
        assert(span_texts(s@, r@) + Seq::<Seq<char>>::empty() =~= span_texts(s@, r@));
    }
    r
}

/// Relies on `String::push`: it appends `ch` to the end of the string.
pub assume_specification[ String::push ](s: &mut String, ch: char)
    ensures
        final(s)@ == old(s)@.push(ch),
;

/// `s[lo..hi]` normalized: its words joined by single spaces.
fn normalize_range(s: &Vec<char>, lo: usize, hi: usize) -> (r: String)
    requires
        lo <= hi <= s.len(),
    ensures
        r@ == normalize(s@.subrange(lo as int, hi as int)),
        r@.len() <= hi - lo,
{
    let spans = word_spans(s, lo, hi);
    let ghost ws = span_texts(s@, spans@);
    let mut out = String::new();
    let mut t: usize = 0;
    while t < spans.len()
        invariant
            t <= spans.len(),
            lo <= hi <= s.len(),
            ws == span_texts(s@, spans@),
            forall|x: int| 0 <= x < spans.len() ==> lo <= (#[trigger] spans[x]).0 < spans[x].1 <= hi,
            forall|x: int| 0 < x < spans.len() ==> spans[x - 1].1 < (#[trigger] spans[x]).0,
            out@ == join_words(ws.take(t as int)),
            t > 0 ==> out@.len() <= spans[t - 1].1 - lo,
        decreases spans.len() - t,
    {
        let (b, e) = spans[t];
        let ghost before = out@;
        if t > 0 {
            out.push(' ');
        }
        let ghost base = out@;
        let mut q: usize = b;
        while q < e
            invariant
                b <= q <= e <= s.len(),
                out@ == base + s@.subrange(b as int, q as int),
            decreases e - q,
        {
            proof {
                assert(s@.subrange(b as int, q + 1) =~= s@.subrange(b as int, q as int).push(
                    s@[q as int],
                ));
            }
            out.push(s[q]);
            q += 1;
        }
        proof {
            assert(ws[t as int] == s@.subrange(b as int, e as int));
            assert(ws.take(t + 1).drop_last() =~= ws.take(t as int));
            if t == 0 {
                assert(out@ =~= ws[0]);
            } else {
                assert(out@ =~= before + seq![' '] + ws[t as int]);
            }
        }
        t += 1;
    }
    proof {
        assert(ws.take(t as int) =~= ws);
    }
    out
}

/// `sen` without leading or trailing whitespace, and with every inner run of
/// whitespace replaced by one space.
pub fn normalize_sentence(sen: &str) -> (r: String)
    ensures
        r@ == normalize(sen@),
{
    let chars = chars_of(sen);
    let r = normalize_range(&chars, 0, chars.len());
    proof {
        assert(chars@.subrange(0, chars@.len() as int) =~= sen@);
    }
    r
}

/// The hash of a word: what `Hash` for `str` feeds a fresh `DefaultHasher`
/// (the word's UTF-8 bytes, then the byte 0xff), finished.
pub open spec fn word_hash(w: Seq<char>) -> u64 {
    DefaultHasher::spec_finish(seq![encode_utf8(w), seq![0xffu8]])
}

/// The fingerprint bit of a word.
pub open spec fn word_bit(w: Seq<char>) -> u64 {
    word_hash(w) % 63
}

/// The set of the words' fingerprint bits, as a bit mask.
pub open spec fn fingerprint(ws: Seq<Seq<char>>) -> u64
    decreases ws.len(),
{
    if ws.len() == 0 {
        0
    } else {
        fingerprint(ws.drop_last()) | (1u64 << word_bit(ws.last()))
    }
}

/// Hashes a word as `Hash` for `str` does, with a fresh `DefaultHasher`.
fn hash_word(w: &str) -> (r: u64)
    ensures
        r == word_hash(w@),
{
    let bytes = w.as_bytes_vec();
    let end: Vec<u8> = vec![0xffu8];
    assert(bytes@ == encode_utf8(w@));
    assert(end@ =~= seq![0xffu8]);
    let mut hasher = DefaultHasher::new();
    hasher.write(bytes.as_slice());
    assert(hasher@ =~= seq![encode_utf8(w@)]);
    hasher.write(end.as_slice());
    proof {
        assert(hasher@ =~= seq![encode_utf8(w@), seq![0xffu8]]);
    }
    hasher.finish()
}

/// A normalized sentence with its word count and the fingerprint of its words.
#[derive(Debug, Clone)]
pub struct Sentence {
    pub content: String,
    pub n_words: i64,
    pub hash_words: i64,
}

impl View for Sentence {
    type V = (Seq<char>, i64);

    /// What equality of sentences compares: the text and the fingerprint.
    open spec fn view(&self) -> (Seq<char>, i64) {
        (self.content@, self.hash_words)
    }
}

impl PartialEq for Sentence {
    fn eq(&self, other: &Self) -> (r: bool)
        ensures
            r == (self@ == other@),
    {
        self.hash_words == other.hash_words && self.content == other.content
    }
}

impl vstd::std_specs::cmp::PartialEqSpecImpl for Sentence {
    open spec fn obeys_eq_spec() -> bool {
        true
    }

    open spec fn eq_spec(&self, other: &Sentence) -> bool {
        self@ == other@
    }
}

impl Sentence {
    /// The word count and the fingerprint agree with the text.
    pub open spec fn wf(&self) -> bool {
        &&& self.n_words == words_of(self.content@).len()
        &&& self.hash_words == fingerprint(words_of(self.content@)) as i64
    }

    /// The sentence whose text is `content`, with its word count and fingerprint.
    pub fn mk_sentence(content: String) -> (r: Self)
        requires
            content@.len() <= i64::MAX,
        ensures
            r.content@ == content@,
            r.wf(),
    {
        let words = Self::words_in(&content);
        proof {
            lemma_words_count(content@);
        }
        let n_words = words.len() as i64;
        let mut mask: u64 = 0;
        let mut t: usize = 0;
        while t < words.len()
            invariant
                t <= words.len(),
                views(words@) == words_of(content@),
                mask == fingerprint(views(words@).take(t as int)),
            decreases words.len() - t,
        {
            let h = hash_word(words[t]);
            proof {
                assert(views(words@).take(t + 1).drop_last() =~= views(words@).take(t as int));
            }
            mask = mask | (1u64 << (h % 63));
            t += 1;
        }
        proof {
            assert(views(words@).take(t as int) =~= views(words@));
        }
        Sentence { content, n_words, hash_words: mask as i64 }
    }

    fn words_in<'a>(content: &'a String) -> (r: Vec<&'a str>)
        ensures
            views(r@) == words_of(content@),
    {
        let text = content.as_str();
        let chars = chars_of(text);
        let spans = word_spans(&chars, 0, chars.len());
        let mut r: Vec<&'a str> = Vec::new();
        let mut t: usize = 0;
        while t < spans.len()
            invariant
                t <= spans.len(),
                chars@ == text@,
                text@ == content@,
                forall|x: int| 0 <= x < spans.len() ==> 0 <= (#[trigger] spans[x]).0 < spans[x].1 <= chars.len(),
                views(r@) == span_texts(chars@, spans@).take(t as int),
            decreases spans.len() - t,
        {
            let (b, e) = spans[t];
            let w = text.substring_char(b, e);
            proof {
                assert(w@ == span_texts(chars@, spans@)[t as int]);
                assert(views(r@.push(w)) =~= views(r@).push(w@));
                assert(views(r@.push(w)) =~= span_texts(chars@, spans@).take(t + 1));
            }
            r.push(w);
            t += 1;
        }
        proof {
            assert(chars@.subrange(0, chars@.len() as int) =~= chars@);
            assert(span_texts(chars@, spans@).take(t as int) =~= span_texts(chars@, spans@));
        }
        r
    }

    /// The whitespace-separated words of the sentence, in order.
    pub fn words<'a>(&'a self) -> (r: Vec<&'a str>)
        ensures
            views(r@) == words_of(self.content@),
    {
        Self::words_in(&self.content)
    }
}

/// No more words than characters.
pub proof fn lemma_words_count(s: Seq<char>)
    ensures
        words_of(s).len() <= s.len(),
    decreases s.len(),
{
    if s.len() > 0 {
        if is_ws(s[0]) {
            lemma_words_count(s.drop_first());
        } else {
            lemma_token_len_bound(s);
            lemma_words_count(s.skip(token_len(s) as int));
        }
    }
}

/// The length of the part of `s` before its first '.'.
pub open spec fn dot_len(s: Seq<char>) -> nat
    decreases s.len(),
{
    if s.len() == 0 || s[0] == '.' {
        0
    } else {
        1 + dot_len(s.drop_first())
    }
}

/// The part of `s` before its first '.' fits in `s`.
pub proof fn lemma_dot_len_bound(s: Seq<char>)
    ensures
        dot_len(s) <= s.len(),
    decreases s.len(),
{
    if s.len() > 0 && s[0] != '.' {
        lemma_dot_len_bound(s.drop_first());
    }
}

proof fn lemma_dot_len_run(u: Seq<char>, l: nat)
    requires
        l <= u.len(),
        forall|t: int| 0 <= t < l ==> #[trigger] u[t] != '.',
        l == u.len() || u[l as int] == '.',
    ensures
        dot_len(u) == l,
    decreases l,
{
    if l > 0 {
        lemma_dot_len_run(u.drop_first(), (l - 1) as nat);
    }
}

/// The pieces of `s` between the '.' characters, the empty ones included:
/// one more piece than there are dots.
pub open spec fn split_dots(s: Seq<char>) -> Seq<Seq<char>>
    decreases s.len(),
{
    proof {
        lemma_dot_len_bound(s);
    }
    let d = dot_len(s) as int;
    if d == s.len() {
        seq![s]
    } else {
        seq![s.take(d)] + split_dots(s.skip(d + 1))
    }
}

/// The normalized pieces, those that are empty left out.
pub open spec fn sentence_texts(pieces: Seq<Seq<char>>) -> Seq<Seq<char>>
    decreases pieces.len(),
{
    if pieces.len() == 0 {
        Seq::empty()
    } else {
        let n = normalize(pieces[0]);
        let rest = sentence_texts(pieces.drop_first());
        if n.len() > 0 {
            seq![n] + rest
        } else {
            rest
        }
    }
}

/// The sentences of a text: split at each '.', normalized, the empty ones
/// dropped.
pub open spec fn segment(text: Seq<char>) -> Seq<Seq<char>> {
    sentence_texts(split_dots(text))
}

/// The sentences of a text as (text, fingerprint): what equality of
/// sentences compares.
pub open spec fn segment_units(text: Seq<char>) -> Seq<(Seq<char>, i64)> {
    segment(text).map_values(|s: Seq<char>| (s, fingerprint(words_of(s)) as i64))
}

/// The texts of the sentences.
pub open spec fn contents(s: Seq<Sentence>) -> Seq<Seq<char>> {
    s.map_values(|x: Sentence| x.content@)
}

proof fn lemma_sentence_texts_cons(p: Seq<char>, rest: Seq<Seq<char>>)
    ensures
        sentence_texts(seq![p] + rest) == (if normalize(p).len() > 0 {
            seq![normalize(p)]
        } else {
            Seq::empty()
        }) + sentence_texts(rest),
{
    let all = seq![p] + rest;
    assert(all[0] == p);
    assert(all.drop_first() =~= rest);
    if normalize(p).len() == 0 {
        assert(Seq::<Seq<char>>::empty() + sentence_texts(rest) =~= sentence_texts(rest));
    }
}

/// Splits `text` into sentences at each '.', normalizes each, drops the
/// empty ones, and gives each its word count and fingerprint.
pub fn sentences(text: String) -> (r: Vec<Sentence>)
    requires
        text@.len() <= i64::MAX,
    ensures
        contents(r@) == segment(text@),
        views(r@) == segment_units(text@),
        forall|i: int| 0 <= i < r.len() ==> (#[trigger] r[i]).wf(),
        r.len() <= text@.len(),
{
    let chars = chars_of(text.as_str());
    let len = chars.len();
    let mut out: Vec<Sentence> = Vec::new();
    let mut start: usize = 0;
    let mut done = false;
    proof {
        assert(chars@.subrange(0, len as int) =~= text@);
        assert(contents(out@) + segment(text@) =~= segment(text@));
    }
    while !done
        invariant
            start <= len,
            len == chars.len(),
            chars@ == text@,
            text@.len() <= i64::MAX,
            !done ==> segment(text@) == contents(out@) + sentence_texts(
                split_dots(chars@.subrange(start as int, len as int)),
            ),
            done ==> segment(text@) == contents(out@),
            forall|i: int| 0 <= i < out.len() ==> (#[trigger] out[i]).wf(),
            !done ==> out.len() <= start,
            done ==> out.len() <= len,
        decreases len - start + (if done {
            0int
        } else {
            1int
        }),
    {
        let mut d: usize = start;
        while d < len && chars[d] != '.'
            invariant
                start <= d <= len,
                len == chars.len(),
                forall|t: int| start <= t < d ==> #[trigger] chars@[t] != '.',
            decreases len - d,
        {
            d += 1;
        }
        let ghost u = chars@.subrange(start as int, len as int);
        let ghost before = contents(out@);
        proof {
            lemma_dot_len_run(u, (d - start) as nat);
            assert(u.take(d - start) =~= chars@.subrange(start as int, d as int));
            if d < len {
                assert(u.skip(d - start + 1) =~= chars@.subrange(d + 1, len as int));
            }
        }
        let content = normalize_range(&chars, start, d);
        let ghost piece = chars@.subrange(start as int, d as int);
        if content.as_str().unicode_len() > 0 {
            let sentence = Sentence::mk_sentence(content);
            proof {
                assert(contents(out@.push(sentence)) =~= contents(out@).push(normalize(piece)));
            }
            out.push(sentence);
        }
        proof {
            let head = if normalize(piece).len() > 0 {
                seq![normalize(piece)]
            } else {
                Seq::empty()
            };
            assert(contents(out@) =~= before + head);
            if d == len {
                assert(u =~= piece);
                assert(split_dots(u) == seq![piece]);
                lemma_sentence_texts_cons(piece, Seq::empty());
                assert(before + head + sentence_texts(Seq::empty()) =~= contents(out@));
            } else {
                let rest = split_dots(chars@.subrange(d + 1, len as int));
                assert(split_dots(u) == seq![piece] + rest);
                lemma_sentence_texts_cons(piece, rest);
                assert(before + (head + sentence_texts(rest)) =~= contents(out@) + sentence_texts(
                    rest,
                ));
            }
        }
        if d == len {
            done = true;
        } else {
            start = d + 1;
        }
    }
    proof {
        assert forall|i: int| 0 <= i < out.len() implies views(out@)[i] == segment_units(
            text@,
        )[i] by {
            assert(contents(out@)[i] == out[i].content@);
            assert(out[i].wf());
        }
        assert(views(out@) =~= segment_units(text@));
    }
    out
}

} // verus!
