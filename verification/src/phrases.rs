//! Verbatim phrase matching between two texts.
//!
//! Both texts are split into Unicode word tokens.  A window of
//! `PHRASE_LEN` consecutive tokens slides over the first text; a
//! window is a match when some window of the second text carries the
//! same tokens after case folding.  Matched phrases are reported in
//! the first text's original casing, joined with single spaces, in
//! order of appearance, and the list is cut off after `MAX_MATCHES`
//! entries.  Texts with fewer than `PHRASE_LEN` tokens yield no
//! matches.  This is a verbatim check: reordered or substituted words
//! are not detected, by design.

use vstd::prelude::*;
use vstd::string::StringExecFns;
use crate::text::{fold_case, lower_of, segment_words, words_of};

verus! {

/// The width of the sliding window: matches are phrases of exactly
/// this many consecutive word tokens.
pub const PHRASE_LEN: usize = 5;

/// The most matched phrases ever reported for one pair of texts.
pub const MAX_MATCHES: usize = 10;

/// A token sequence with every token folded to lowercase.
pub open spec fn folded(ws: Seq<Seq<char>>) -> Seq<Seq<char>> {
    ws.map(|i: int, w: Seq<char>| lower_of(w))
}

/// The window of `PHRASE_LEN` tokens starting at position `i`.
pub open spec fn gram(ws: Seq<Seq<char>>, i: int) -> Seq<Seq<char>> {
    ws.subrange(i, i + PHRASE_LEN as int)
}

/// Whether the window of the first text at position `i` occurs,
/// case-folded, anywhere in the second text.
pub open spec fn gram_matches(ws1: Seq<Seq<char>>, ws2: Seq<Seq<char>>, i: int) -> bool {
    exists|j: int|
        0 <= j <= ws2.len() - PHRASE_LEN && folded(gram(ws1, i)) == folded(gram(ws2, j))
}

/// Tokens joined into one phrase with single spaces between them.
pub open spec fn join_words(ws: Seq<Seq<char>>) -> Seq<char>
    decreases ws.len(),
{
    if ws.len() == 0 {
        Seq::empty()
    } else if ws.len() == 1 {
        ws[0]
    } else {
        join_words(ws.drop_last()) + seq![' '] + ws.last()
    }
}

/// How many windows the first text offers against the second: none
/// unless both texts have at least `PHRASE_LEN` tokens.
pub open spec fn window_count(ws1: Seq<Seq<char>>, ws2: Seq<Seq<char>>) -> int {
    if ws1.len() < PHRASE_LEN || ws2.len() < PHRASE_LEN {
        0
    } else {
        ws1.len() - PHRASE_LEN + 1
    }
}

/// The phrases of the first `n` windows that match, in window order,
/// each in the first text's original casing.
pub open spec fn matches_upto(ws1: Seq<Seq<char>>, ws2: Seq<Seq<char>>, n: int) -> Seq<Seq<char>>
    decreases n,
{
    if n <= 0 {
        Seq::empty()
    } else {
        let r = matches_upto(ws1, ws2, n - 1);
        if gram_matches(ws1, ws2, n - 1) {
            r.push(join_words(gram(ws1, n - 1)))
        } else {
            r
        }
    }
}

/// All matching phrases of the two texts, cut off at `MAX_MATCHES`.
pub open spec fn match_list(ws1: Seq<Seq<char>>, ws2: Seq<Seq<char>>) -> Seq<Seq<char>> {
    let all = matches_upto(ws1, ws2, window_count(ws1, ws2));
    if all.len() <= MAX_MATCHES {
        all
    } else {
        all.take(MAX_MATCHES as int)
    }
}

/// Folding commutes with taking a window.
proof fn lemma_folded_subrange(ws: Seq<Seq<char>>, a: int, b: int)
    requires
        0 <= a <= b <= ws.len(),
    ensures
        folded(ws.subrange(a, b)) =~= folded(ws).subrange(a, b),
{
}

/// Folds every token of a word list.
fn fold_all(words: &Vec<String>) -> (r: Vec<String>)
    ensures
        r@.len() == words@.len(),
        forall|i: int| 0 <= i < r@.len() ==> r@[i]@ == lower_of(words@[i]@),
{
    let mut out: Vec<String> = Vec::new();
    let mut k: usize = 0;
    while k < words.len()
        invariant
            k <= words@.len(),
            out@.len() == k,
            forall|i: int| 0 <= i < k ==> out@[i]@ == lower_of(words@[i]@),
        decreases words@.len() - k,
    {
        out.push(fold_case(words[k].as_str()));
        k += 1;
    }
    out
}

/// Whether the two case-folded windows at `i` and `j` carry the same
/// tokens.
fn grams_equal(f1: &Vec<String>, i: usize, f2: &Vec<String>, j: usize, ws1: Ghost<Seq<Seq<char>>>,
    ws2: Ghost<Seq<Seq<char>>>) -> (r: bool)
    requires
        f1@.len() == ws1@.len(),
        forall|k: int| 0 <= k < f1@.len() ==> f1@[k]@ == lower_of(ws1@[k]),
        f2@.len() == ws2@.len(),
        forall|k: int| 0 <= k < f2@.len() ==> f2@[k]@ == lower_of(ws2@[k]),
        i + PHRASE_LEN <= f1@.len(),
        j + PHRASE_LEN <= f2@.len(),
    ensures
        r == (folded(gram(ws1@, i as int)) == folded(gram(ws2@, j as int))),
{
    let ghost g1 = folded(gram(ws1@, i as int));
    let ghost g2 = folded(gram(ws2@, j as int));
    proof {
        lemma_folded_subrange(ws1@, i as int, i + PHRASE_LEN as int);
        lemma_folded_subrange(ws2@, j as int, j + PHRASE_LEN as int);
    }
    let n1 = f1.len();
    let n2 = f2.len();
    let mut k: usize = 0;
    while k < PHRASE_LEN
        invariant_except_break
            k <= PHRASE_LEN,
            n1 == f1@.len(),
            n2 == f2@.len(),
            i + PHRASE_LEN <= f1@.len(),
            j + PHRASE_LEN <= f2@.len(),
            g1.len() == PHRASE_LEN,
            g2.len() == PHRASE_LEN,
            forall|x: int| 0 <= x < PHRASE_LEN ==> g1[x] == f1@[i + x]@,
            forall|x: int| 0 <= x < PHRASE_LEN ==> g2[x] == f2@[j + x]@,
            forall|x: int| 0 <= x < k ==> g1[x] == g2[x],
        ensures
            (k == PHRASE_LEN && g1 =~= g2) || (k < PHRASE_LEN && g1 != g2),
        decreases PHRASE_LEN - k,
    {
        if !(f1[i + k] == f2[j + k]) {
            proof {
                assert(g1[k as int] != g2[k as int]);
            }
            break;
        }
        k += 1;
    }
    k == PHRASE_LEN
}

/// The verbatim overlapping phrases of two texts: every window of
/// `PHRASE_LEN` consecutive words of the first text that occurs,
/// case-folded, anywhere in the second text, reported in the first
/// text's original casing and original order, at most `MAX_MATCHES`
/// of them.  Either text falling short of `PHRASE_LEN` words yields
/// the empty list.
pub fn find_matching_phrases(text1: &str, text2: &str) -> (r: Vec<String>)
    ensures
        r@.map(|i: int, s: String| s@) == match_list(words_of(text1@), words_of(text2@)),
        r@.len() <= MAX_MATCHES,
        (words_of(text1@).len() < PHRASE_LEN || words_of(text2@).len() < PHRASE_LEN) ==> r@.len()
            == 0,
{
    let words1 = segment_words(text1);
    let words2 = segment_words(text2);
    let ghost ws1 = words_of(text1@);
    let ghost ws2 = words_of(text2@);
    proof {
        assert(words1@.map(|i: int, w: String| w@).len() == ws1.len());
        assert(words2@.map(|i: int, w: String| w@).len() == ws2.len());
    }
    let mut out: Vec<String> = Vec::new();
    if words1.len() < PHRASE_LEN || words2.len() < PHRASE_LEN {
        proof {
            assert(out@.map(|i: int, s: String| s@) =~= match_list(ws1, ws2));
        }
        return out;
    }
    let f1 = fold_all(&words1);
    let f2 = fold_all(&words2);
    proof {
        assert forall|k: int| 0 <= k < f1@.len() implies f1@[k]@ == lower_of(ws1[k]) by {
            assert(ws1[k] == words1@[k]@);
        }
        assert forall|k: int| 0 <= k < f2@.len() implies f2@[k]@ == lower_of(ws2[k]) by {
            assert(ws2[k] == words2@[k]@);
        }
    }
    let wc = words1.len() - PHRASE_LEN + 1;
    let mut i: usize = 0;
    while i < wc
        invariant
            PHRASE_LEN <= words1@.len(),
            PHRASE_LEN <= words2@.len(),
            wc == words1@.len() - PHRASE_LEN + 1,
            i <= wc,
            ws1 == words1@.map(|k: int, w: String| w@),
            ws2 == words2@.map(|k: int, w: String| w@),
            f1@.len() == words1@.len(),
            forall|k: int| 0 <= k < f1@.len() ==> f1@[k]@ == lower_of(ws1[k]),
            f2@.len() == words2@.len(),
            forall|k: int| 0 <= k < f2@.len() ==> f2@[k]@ == lower_of(ws2[k]),
            out@.map(|k: int, s: String| s@) == matches_upto(ws1, ws2, i as int),
        decreases wc - i,
    {
        let ghost prev = out@.map(|k: int, s: String| s@);
        let mut j: usize = 0;
        let mut found = false;
        while j <= words2.len() - PHRASE_LEN
            invariant_except_break
                !found,
                PHRASE_LEN <= words2@.len(),
                j <= words2@.len() - PHRASE_LEN + 1,
                i + PHRASE_LEN <= f1@.len(),
                f1@.len() == words1@.len(),
                f2@.len() == words2@.len(),
                forall|k: int| 0 <= k < f1@.len() ==> f1@[k]@ == lower_of(ws1[k]),
                forall|k: int| 0 <= k < f2@.len() ==> f2@[k]@ == lower_of(ws2[k]),
                ws1.len() == words1@.len(),
                ws2.len() == words2@.len(),
                forall|jj: int|
                    0 <= jj < j ==> folded(gram(ws1, i as int)) != folded(gram(ws2, jj)),
            ensures
                found ==> gram_matches(ws1, ws2, i as int),
                !found ==> !gram_matches(ws1, ws2, i as int),
            decreases words2@.len() - j,
        {
            if grams_equal(&f1, i, &f2, j, Ghost(ws1), Ghost(ws2)) {
                found = true;
                proof {
                    assert(0 <= j as int <= ws2.len() - PHRASE_LEN);
                    assert(gram_matches(ws1, ws2, i as int));
                }
                break;
            }
            j += 1;
        }
        if found {
            let phrase = join_window(&words1, i, Ghost(ws1));
            out.push(phrase);
            proof {
                assert(out@.map(|k: int, s: String| s@) =~= prev.push(join_words(gram(ws1,
                    i as int))));
            }
        }
        i += 1;
    }
    proof {
        assert(out@.map(|k: int, s: String| s@) == matches_upto(ws1, ws2, window_count(ws1, ws2)));
    }
    if out.len() > MAX_MATCHES {
        let ghost all = out@.map(|k: int, s: String| s@);
        out.truncate(MAX_MATCHES);
        proof {
            assert(out@.map(|k: int, s: String| s@) =~= all.take(MAX_MATCHES as int));
        }
    }
    out
}

/// Joins the `PHRASE_LEN` words starting at `i` with single spaces,
/// keeping their original casing.
fn join_window(words: &Vec<String>, i: usize, ws: Ghost<Seq<Seq<char>>>) -> (r: String)
    requires
        ws@ == words@.map(|k: int, w: String| w@),
        i + PHRASE_LEN <= words@.len(),
    ensures
        r@ == join_words(gram(ws@, i as int)),
{
    let mut phrase = words[i].clone();
    proof {
        assert(ws@.subrange(i as int, i as int + 1).len() == 1);
        assert(join_words(ws@.subrange(i as int, i as int + 1)) == ws@[i as int]);
    }
    let n = words.len();
    let mut k: usize = 1;
    while k < PHRASE_LEN
        invariant
            1 <= k <= PHRASE_LEN,
            n == words@.len(),
            ws@ == words@.map(|x: int, w: String| w@),
            i + PHRASE_LEN <= words@.len(),
            phrase@ == join_words(ws@.subrange(i as int, i as int + k as int)),
        decreases PHRASE_LEN - k,
    {
        proof {
            reveal_strlit(" ");
            assert(" "@ =~= seq![' ']);
            let sub = ws@.subrange(i as int, i as int + k as int + 1);
            assert(sub.drop_last() =~= ws@.subrange(i as int, i as int + k as int));
            assert(sub.last() == ws@[i + k as int]);
            assert(sub.len() == k as int + 1 >= 2);
            assert(join_words(sub) == join_words(sub.drop_last()) + seq![' '] + sub.last());
        }
        phrase.append(" ");
        phrase.append(words[i + k].as_str());
        k += 1;
    }
    proof {
        assert(ws@.subrange(i as int, i as int + PHRASE_LEN as int) =~= gram(ws@, i as int));
    }
    phrase
}

} // verus!
