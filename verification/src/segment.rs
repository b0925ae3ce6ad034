//! Unicode boundary segmentation: grapheme clusters, words and sentences.
//!
//! The boundary rules (UAX #29) rest on large Unicode property tables, so
//! the segmentation itself is done by the `bstr` crate through trusted
//! wrappers; what each call returns is named by an uninterpreted spec
//! function, and the facts that `bstr`'s source and documentation show of
//! each iterator are stated as that wrapper's contract.  Ill-formed input
//! is decoded
//! leniently, exactly as [`crate::scan::lenient_chars`] describes: `bstr`
//! substitutes one replacement character per maximal subpart.

use bstr::ByteSlice;
use vstd::prelude::*;
use crate::scan::lenient_chars;

verus! {

/// The grapheme clusters that the segmenter yields for `s`.
pub uninterp spec fn graphemes_of(s: Seq<u8>) -> Seq<Seq<char>>;

/// The word-boundary segments that the segmenter yields for `s`: words and
/// the breaks between them, in input order.
pub uninterp spec fn words_with_breaks_of(s: Seq<u8>) -> Seq<Seq<char>>;

/// The sentences that the segmenter yields for `s`.
pub uninterp spec fn sentences_of(s: Seq<u8>) -> Seq<Seq<char>>;

/// Whether a character is a word character under UTS #18 (Annex C):
/// `Alphabetic` and `Join_Control`, with the `Decimal_Number`, `Mark` and
/// `Connector_Punctuation` general categories.
pub uninterp spec fn is_word_char(c: char) -> bool;

/// True when a segment holds at least one word character.
pub open spec fn has_word_char(w: Seq<char>) -> bool {
    exists|j: int| 0 <= j < w.len() && is_word_char(#[trigger] w[j])
}

/// True when a segment begins with a word character.
pub open spec fn starts_with_word_char(w: Seq<char>) -> bool {
    w.len() > 0 && is_word_char(w[0])
}

/// The word tokens of `s`: the word-boundary segments whose first
/// character is a word character, in input order.  (A segment that merely
/// holds a word character later on — punctuation with a combining mark
/// attached, say — is not a token.)
pub open spec fn word_tokens_of(s: Seq<u8>) -> Seq<Seq<char>> {
    words_with_breaks_of(s).filter(|w: Seq<char>| starts_with_word_char(w))
}

/// Relies on `ByteSlice::graphemes` of bstr: the iterator yields the
/// grapheme clusters of the leniently decoded input, in order; every
/// cluster is nonempty, and concatenating all of them gives the original
/// string, modulo replacement-codepoint substitution of maximal subparts.
#[verifier::external_body]
fn graphemes_raw(b: &[u8]) -> (r: Vec<String>)
    ensures
        r@.map_values(|g: String| g@) == graphemes_of(b@),
        r@.map_values(|g: String| g@).flatten() == lenient_chars(b@),
        forall|j: int| 0 <= j < r@.len() ==> (#[trigger] r@[j])@.len() > 0,
        b@.len() == 0 ==> r@.len() == 0,
{
    b.graphemes().map(|g| g.to_string()).collect()
}

/// Relies on `ByteSlice::words_with_breaks` of bstr: the iterator yields
/// words and the breaks between them, every segment nonempty, and
/// concatenating everything it yields gives the original string, modulo
/// replacement-codepoint substitution of maximal subparts.
#[verifier::external_body]
fn words_with_breaks_raw(b: &[u8]) -> (r: Vec<String>)
    ensures
        r@.map_values(|w: String| w@) == words_with_breaks_of(b@),
        r@.map_values(|w: String| w@).flatten() == lenient_chars(b@),
        forall|j: int| 0 <= j < r@.len() ==> (#[trigger] r@[j])@.len() > 0,
        b@.len() == 0 ==> r@.len() == 0,
{
    b.words_with_breaks().map(|w| w.to_string()).collect()
}

/// Relies on `ByteSlice::words` of bstr: the iterator yields exactly the
/// elements of `words_with_breaks` whose first character is a word
/// character (it keeps a segment when a search for one word character,
/// anchored at the segment's start, matches).
#[verifier::external_body]
fn words_raw(b: &[u8]) -> (r: Vec<String>)
    ensures
        r@.map_values(|w: String| w@) == word_tokens_of(b@),
        forall|j: int|
            0 <= j < r@.len() ==> (#[trigger] r@[j])@.len() > 0 && is_word_char(r@[j]@[0]),
{
    b.words().map(|w| w.to_string()).collect()
}

/// Relies on `ByteSlice::sentences` of bstr: the iterator yields the
/// sentences of the leniently decoded input, each typically carrying its
/// trailing punctuation and whitespace; every sentence is nonempty, and
/// concatenating everything it yields gives the original string, modulo
/// replacement-codepoint substitution of maximal subparts.
#[verifier::external_body]
fn sentences_raw(b: &[u8]) -> (r: Vec<String>)
    ensures
        r@.map_values(|t: String| t@) == sentences_of(b@),
        r@.map_values(|t: String| t@).flatten() == lenient_chars(b@),
        forall|j: int| 0 <= j < r@.len() ==> (#[trigger] r@[j])@.len() > 0,
        b@.len() == 0 ==> r@.len() == 0,
{
    b.sentences().map(|t| t.to_string()).collect()
}

/// The grapheme clusters of the input's leniently decoded text, in order:
/// none is empty, and concatenating them reproduces that text exactly.
pub fn graphemes(subject: &[u8]) -> (r: Vec<String>)
    ensures
        r@.map_values(|g: String| g@) == graphemes_of(subject@),
        r@.map_values(|g: String| g@).flatten() == lenient_chars(subject@),
        forall|j: int| 0 <= j < r@.len() ==> (#[trigger] r@[j])@.len() > 0,
        subject@.len() == 0 ==> r@.len() == 0,
{
    graphemes_raw(subject)
}

/// The sentences of the input's leniently decoded text, in order: none is
/// empty, and concatenating them reproduces that text exactly.
pub fn sentences(subject: &[u8]) -> (r: Vec<String>)
    ensures
        r@.map_values(|t: String| t@) == sentences_of(subject@),
        r@.map_values(|t: String| t@).flatten() == lenient_chars(subject@),
        forall|j: int| 0 <= j < r@.len() ==> (#[trigger] r@[j])@.len() > 0,
        subject@.len() == 0 ==> r@.len() == 0,
{
    sentences_raw(subject)
}

/// Output mode of [`words`]: word tokens only, or every word-boundary
/// segment, breaks included.
#[derive(Clone, Copy, PartialEq, Eq, Structural, Debug)]
pub enum WordMode {
    NoBreaks,
    WithBreaks,
}

/// The words of the input's leniently decoded text.  With
/// `WordMode::WithBreaks` every word-boundary segment is kept and their
/// concatenation reproduces that text exactly; with `WordMode::NoBreaks`
/// only the segments that begin with a word character remain, in the same
/// order.  No segment is empty in either mode.
pub fn words(subject: &[u8], mode: WordMode) -> (r: Vec<String>)
    ensures
        mode == WordMode::WithBreaks ==> r@.map_values(|w: String| w@) == words_with_breaks_of(
            subject@,
        ),
        mode == WordMode::WithBreaks ==> r@.map_values(|w: String| w@).flatten() == lenient_chars(
            subject@,
        ),
        mode == WordMode::NoBreaks ==> r@.map_values(|w: String| w@) == word_tokens_of(subject@),
        forall|j: int| 0 <= j < r@.len() ==> (#[trigger] r@[j])@.len() > 0,
{
    match mode {
        WordMode::NoBreaks => words_raw(subject),
        WordMode::WithBreaks => words_with_breaks_raw(subject),
    }
}

/// `a` is a subsequence of `b`: the elements of `a` can be read off `b` in
/// order, skipping elements of `b` but never reordering.
pub open spec fn is_subsequence_of<A>(a: Seq<A>, b: Seq<A>) -> bool
    decreases b.len(),
{
    if a.len() == 0 {
        true
    } else if b.len() == 0 {
        false
    } else if a.last() == b.last() {
        is_subsequence_of(a.drop_last(), b.drop_last())
    } else {
        is_subsequence_of(a, b.drop_last())
    }
}

proof fn lemma_subseq_drop_last<A>(a: Seq<A>, c: Seq<A>)
    requires
        is_subsequence_of(a, c),
        a.len() > 0,
    ensures
        is_subsequence_of(a.drop_last(), c),
    decreases c.len(), 1int,
{
    if a.last() == c.last() {
        lemma_subseq_extend(a.drop_last(), c);
    } else {
        lemma_subseq_drop_last(a, c.drop_last());
        lemma_subseq_extend(a.drop_last(), c);
    }
}

proof fn lemma_subseq_extend<A>(x: Seq<A>, c: Seq<A>)
    requires
        c.len() > 0,
        is_subsequence_of(x, c.drop_last()),
    ensures
        is_subsequence_of(x, c),
    decreases c.len(), 0int,
{
    if x.len() == 0 {
    } else if x.last() == c.last() {
        lemma_subseq_drop_last(x, c.drop_last());
    }
}

proof fn lemma_filter_is_subsequence<A>(b: Seq<A>, p: spec_fn(A) -> bool)
    ensures
        is_subsequence_of(b.filter(p), b),
    decreases b.len(),
{
    reveal(Seq::filter);
    if b.len() == 0 {
    } else {
        let bl = b.drop_last();
        lemma_filter_is_subsequence(bl, p);
        if p(b.last()) {
            assert(b.filter(p) == bl.filter(p).push(b.last()));
            assert(b.filter(p).drop_last() =~= bl.filter(p));
        } else {
            assert(b.filter(p) == bl.filter(p));
            lemma_subseq_extend(bl.filter(p), b);
        }
    }
}

/// The word tokens are a subsequence of the word-boundary segments: they
/// appear in the same order, with only the tokens without a word character
/// left out.
pub proof fn lemma_word_tokens_subsequence(s: Seq<u8>)
    ensures
        is_subsequence_of(word_tokens_of(s), words_with_breaks_of(s)),
{
    lemma_filter_is_subsequence(words_with_breaks_of(s), |w: Seq<char>| starts_with_word_char(w));
}

/// There are no more word tokens than word-boundary segments; every word
/// token begins with a word character (and so holds one), and every word
/// token is one of the segments that [`words`] returns with
/// `WordMode::WithBreaks`.
pub proof fn lemma_words_are_filtered_breaks(s: Seq<u8>)
    ensures
        word_tokens_of(s).len() <= words_with_breaks_of(s).len(),
        forall|j: int|
            0 <= j < word_tokens_of(s).len() ==> starts_with_word_char(
                #[trigger] word_tokens_of(s)[j],
            ),
        forall|j: int|
            0 <= j < word_tokens_of(s).len() ==> has_word_char(#[trigger] word_tokens_of(s)[j]),
        forall|j: int|
            0 <= j < word_tokens_of(s).len() ==> words_with_breaks_of(s).contains(
                #[trigger] word_tokens_of(s)[j],
            ),
{
    let ws = words_with_breaks_of(s);
    let pred = |w: Seq<char>| starts_with_word_char(w);
    ws.lemma_filter_len(pred);
    assert forall|j: int| 0 <= j < word_tokens_of(s).len() implies starts_with_word_char(
        word_tokens_of(s)[j],
    ) && has_word_char(word_tokens_of(s)[j]) && ws.contains(word_tokens_of(s)[j]) by {
        ws.lemma_filter_pred(pred, j);
        let w = ws.filter(pred)[j];
        assert(0 <= 0 < w.len() && is_word_char(w[0]));
        ws.filter(pred).lemma_index_contains(j);
        ws.lemma_filter_contains_rev(pred, w);
    }
}

} // verus!
