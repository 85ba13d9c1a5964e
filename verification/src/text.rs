//! Word segmentation and case folding.
//!
//! Raw text is split into Unicode word tokens and, for comparison
//! purposes, folded to lowercase.  Both operations are performed by
//! outside code (the `unicode-segmentation` crate and the standard
//! library); their results are given names that the rest of the
//! library's contracts are stated over.

use vstd::prelude::*;
use unicode_segmentation::UnicodeSegmentation;

verus! {

/// The sequence of Unicode word tokens of a text, as segmented by
/// UAX#29 word-boundary rules.  A pure function of the characters of
/// the text; kept abstract because the segmentation rules fill pages.
pub uninterp spec fn words_of(s: Seq<char>) -> Seq<Seq<char>>;

/// The lowercase folding of a sequence of characters, as computed by
/// `str::to_lowercase`.  A pure function of the characters; kept
/// abstract because the Unicode case-mapping tables fill pages.
pub uninterp spec fn lower_of(s: Seq<char>) -> Seq<char>;

/// The word tokens of a text with each token folded to lowercase:
/// what the term-frequency vector of the text is built from.
pub open spec fn tokens_of(s: Seq<char>) -> Seq<Seq<char>> {
    words_of(s).map(|i: int, w: Seq<char>| lower_of(w))
}

/// Relies on `unicode_segmentation::UnicodeSegmentation::unicode_words`:
/// the word tokens of a text, in order, a pure function of the text.
#[verifier::external_body]
pub(crate) fn segment_words(text: &str) -> (r: Vec<String>)
    ensures
        r@.map(|i: int, w: String| w@) == words_of(text@),
{
    text.unicode_words().map(|w| w.to_string()).collect()
}

/// Relies on `str::to_lowercase`: the lowercase form of a string,
/// a pure function of its characters.
#[verifier::external_body]
pub(crate) fn fold_case(s: &str) -> (r: String)
    ensures
        r@ == lower_of(s@),
{
    s.to_lowercase()
}

/// Splits a text into its Unicode word tokens, each folded to
/// lowercase.  Tokenization never fails: empty or wordless input
/// yields an empty token list.
pub fn tokenize(text: &str) -> (r: Vec<String>)
    ensures
        r@.map(|i: int, w: String| w@) == tokens_of(text@),
{
    let words = segment_words(text);
    let mut folded: Vec<String> = Vec::new();
    let ghost wseq = words@.map(|i: int, w: String| w@);
    let mut k: usize = 0;
    while k < words.len()
        invariant
            k <= words.len(),
            wseq == words@.map(|i: int, w: String| w@),
            wseq == words_of(text@),
            folded@.len() == k,
            forall|i: int| 0 <= i < k ==> folded@[i]@ == lower_of(wseq[i]),
        decreases words.len() - k,
    {
        folded.push(fold_case(words[k].as_str()));
        k += 1;
    }
    proof {
        assert(folded@.map(|i: int, w: String| w@) =~= tokens_of(text@));
    }
    folded
}

} // verus!
