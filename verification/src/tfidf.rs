//! Term-frequency vectors.
//!
//! A text's term-frequency vector maps each distinct folded token to
//! its weight: occurrence count divided by total token count.  The
//! vector is stored exactly, as the occurrence counts together with
//! the total, so the weights are the rationals `count / total` and sum
//! to one whenever the text has at least one token.  No
//! inverse-document-frequency weighting is applied: the design
//! deliberately computes plain term frequency, uniformly across calls.

use vstd::prelude::*;
use crate::text::{tokens_of, tokenize, words_of};

verus! {

/// One distinct term of a text together with its occurrence count.
pub struct TermEntry {
    pub term: String,
    pub count: u64,
}

/// A sparse term-frequency vector: the distinct folded tokens of one
/// text, each with its occurrence count, plus the total token count.
/// The weight of a term is `count / total`; absent terms weigh zero.
pub struct TermVector {
    pub entries: Vec<TermEntry>,
    pub total: u64,
}

impl View for TermVector {
    type V = Seq<(Seq<char>, nat)>;

    open spec fn view(&self) -> Seq<(Seq<char>, nat)> {
        self.entries@.map(|i: int, e: TermEntry| (e.term@, e.count as nat))
    }
}

/// The count recorded for term `t`, zero when `t` is absent.
pub open spec fn lookup(v: Seq<(Seq<char>, nat)>, t: Seq<char>) -> nat
    decreases v.len(),
{
    if v.len() == 0 {
        0
    } else if v[0].0 == t {
        v[0].1
    } else {
        lookup(v.drop_first(), t)
    }
}

/// Whether some entry records term `t`.
pub open spec fn has_term(v: Seq<(Seq<char>, nat)>, t: Seq<char>) -> bool {
    exists|i: int| 0 <= i < v.len() && v[i].0 == t
}

/// No term occurs in two entries.
pub open spec fn distinct_terms(v: Seq<(Seq<char>, nat)>) -> bool {
    forall|i: int, j: int| 0 <= i < j < v.len() ==> v[i].0 != v[j].0
}

/// The sum of all recorded counts.
pub open spec fn sum_counts(v: Seq<(Seq<char>, nat)>) -> nat
    decreases v.len(),
{
    if v.len() == 0 {
        0
    } else {
        sum_counts(v.drop_last()) + v.last().1
    }
}

/// How often token `t` occurs in a token sequence.
pub open spec fn count_in(tokens: Seq<Seq<char>>, t: Seq<char>) -> nat
    decreases tokens.len(),
{
    if tokens.len() == 0 {
        0
    } else {
        count_in(tokens.drop_last(), t) + if tokens.last() == t {
            1nat
        } else {
            0nat
        }
    }
}

/// The distinct tokens of a sequence, in order of first occurrence.
pub open spec fn firsts(tokens: Seq<Seq<char>>) -> Seq<Seq<char>>
    decreases tokens.len(),
{
    if tokens.len() == 0 {
        Seq::empty()
    } else {
        let p = firsts(tokens.drop_last());
        if tokens.drop_last().contains(tokens.last()) {
            p
        } else {
            p.push(tokens.last())
        }
    }
}

/// The term-frequency vector of a token sequence: each first-occurrence
/// token paired with its count, in order of first occurrence.
pub open spec fn vector_of(tokens: Seq<Seq<char>>) -> Seq<(Seq<char>, nat)> {
    firsts(tokens).map(|i: int, t: Seq<char>| (t, count_in(tokens, t)))
}

impl TermVector {
    /// A well-formed vector: distinct terms, every count at least one,
    /// and the counts summing to the recorded total.
    pub open spec fn wf(&self) -> bool {
        &&& distinct_terms(self@)
        &&& sum_counts(self@) == self.total as nat
        &&& forall|i: int| 0 <= i < self@.len() ==> (#[trigger] self@[i]).1 >= 1
    }

    /// The total token count of the vectorized text.
    pub fn total(&self) -> (r: u64)
        ensures
            r == self.total,
    {
        self.total
    }

    /// The number of distinct terms.
    pub fn len(&self) -> (r: usize)
        ensures
            r == self@.len(),
    {
        self.entries.len()
    }

    /// The occurrence count recorded for `term`, zero when absent.
    pub fn count_of(&self, term: &str) -> (r: u64)
        requires
            self.wf(),
        ensures
            r as nat == lookup(self@, term@),
    {
        let t = term.to_owned();
        let mut k: usize = 0;
        while k < self.entries.len()
            invariant
                self.wf(),
                t@ == term@,
                k <= self@.len(),
                forall|i: int| 0 <= i < k ==> (#[trigger] self@[i]).0 != term@,
            decreases self@.len() - k,
        {
            if self.entries[k].term == t {
                proof {
                    lemma_lookup_at_index(self@, k as int);
                }
                return self.entries[k].count;
            }
            k += 1;
        }
        proof {
            lemma_lookup_absent(self@, term@);
        }
        0
    }

    /// Whether the vectorized text contained `term` at all.
    pub fn contains_term(&self, term: &str) -> (r: bool)
        requires
            self.wf(),
        ensures
            r == has_term(self@, term@),
    {
        let t = term.to_owned();
        let mut k: usize = 0;
        while k < self.entries.len()
            invariant
                t@ == term@,
                k <= self@.len(),
                forall|i: int| 0 <= i < k ==> (#[trigger] self@[i]).0 != term@,
            decreases self@.len() - k,
        {
            if self.entries[k].term == t {
                proof {
                    assert(self@[k as int].0 == term@);
                }
                return true;
            }
            k += 1;
        }
        false
    }
}

/// On a vector with distinct terms, `lookup` returns the count stored
/// at the index of the term looked up.
pub proof fn lemma_lookup_at_index(v: Seq<(Seq<char>, nat)>, j: int)
    requires
        distinct_terms(v),
        0 <= j < v.len(),
    ensures
        lookup(v, v[j].0) == v[j].1,
    decreases v.len(),
{
    if j == 0 {
    } else {
        assert(v[0].0 != v[j].0);
        lemma_lookup_at_index(v.drop_first(), j - 1);
    }
}

/// A term under no entry looks up to zero.
pub proof fn lemma_lookup_absent(v: Seq<(Seq<char>, nat)>, t: Seq<char>)
    requires
        forall|i: int| 0 <= i < v.len() ==> (#[trigger] v[i]).0 != t,
    ensures
        lookup(v, t) == 0,
    decreases v.len(),
{
    if v.len() > 0 {
        lemma_lookup_absent(v.drop_first(), t);
    }
}

/// A token counts zero in a sequence that does not contain it, and at
/// least once in one that does.
pub proof fn lemma_count_in_contains(tokens: Seq<Seq<char>>, t: Seq<char>)
    ensures
        count_in(tokens, t) >= 1 <==> tokens.contains(t),
    decreases tokens.len(),
{
    if tokens.len() > 0 {
        lemma_count_in_contains(tokens.drop_last(), t);
        assert(tokens.contains(t) <==> (tokens.drop_last().contains(t) || tokens.last() == t))
            by {
            if tokens.contains(t) {
                let i = choose|i: int| 0 <= i < tokens.len() && tokens[i] == t;
                if i < tokens.len() - 1 {
                    assert(tokens.drop_last()[i] == t);
                }
            }
            if tokens.drop_last().contains(t) {
                let i = choose|i: int|
                    0 <= i < tokens.drop_last().len() && tokens.drop_last()[i] == t;
                assert(tokens[i] == t);
            }
        }
    }
}

/// The first-occurrence list contains exactly the tokens of the text.
pub proof fn lemma_firsts_contains(tokens: Seq<Seq<char>>, t: Seq<char>)
    ensures
        firsts(tokens).contains(t) <==> tokens.contains(t),
    decreases tokens.len(),
{
    if tokens.len() > 0 {
        let p = tokens.drop_last();
        lemma_firsts_contains(p, t);
        assert(tokens.contains(t) <==> (p.contains(t) || tokens.last() == t)) by {
            if tokens.contains(t) {
                let i = choose|i: int| 0 <= i < tokens.len() && tokens[i] == t;
                if i < tokens.len() - 1 {
                    assert(p[i] == t);
                }
            }
            if p.contains(t) {
                let i = choose|i: int| 0 <= i < p.len() && p[i] == t;
                assert(tokens[i] == t);
            }
        }
        if !p.contains(tokens.last()) {
            assert(firsts(tokens) == firsts(p).push(tokens.last()));
            if firsts(tokens).contains(t) {
                let i = choose|i: int| 0 <= i < firsts(tokens).len() && firsts(tokens)[i] == t;
                if i < firsts(p).len() {
                    assert(firsts(p)[i] == t);
                }
            }
            if firsts(p).contains(t) {
                let i = choose|i: int| 0 <= i < firsts(p).len() && firsts(p)[i] == t;
                assert(firsts(tokens)[i] == t);
            }
            if tokens.last() == t {
                assert(firsts(tokens).last() == t);
                assert(firsts(tokens).contains(t));
            }
        }
    }
}

/// The first-occurrence list never repeats a token.
pub proof fn lemma_firsts_distinct(tokens: Seq<Seq<char>>)
    ensures
        forall|i: int, j: int|
            0 <= i < j < firsts(tokens).len() ==> firsts(tokens)[i] != firsts(tokens)[j],
    decreases tokens.len(),
{
    if tokens.len() > 0 {
        let p = tokens.drop_last();
        lemma_firsts_distinct(p);
        if !p.contains(tokens.last()) {
            lemma_firsts_contains(p, tokens.last());
            assert(!firsts(p).contains(tokens.last()));
            assert forall|i: int, j: int|
                0 <= i < j < firsts(tokens).len() implies firsts(tokens)[i]
                != firsts(tokens)[j] by {
                if j < firsts(p).len() {
                } else {
                    assert(firsts(tokens)[j] == tokens.last());
                    assert(firsts(tokens)[i] == firsts(p)[i]);
                    if firsts(p)[i] == tokens.last() {
                        assert(firsts(p).contains(tokens.last()));
                    }
                }
            }
        }
    }
}

/// Appending a token raises its count by one and leaves the others.
pub proof fn lemma_count_in_push(tokens: Seq<Seq<char>>, x: Seq<char>, t: Seq<char>)
    ensures
        count_in(tokens.push(x), t) == count_in(tokens, t) + if t == x {
            1nat
        } else {
            0nat
        },
{
    assert(tokens.push(x).drop_last() =~= tokens);
}

/// Appending an already-seen token leaves the first-occurrence list as
/// it is; appending a new one appends it there too.
pub proof fn lemma_firsts_push(tokens: Seq<Seq<char>>, x: Seq<char>)
    ensures
        tokens.contains(x) ==> firsts(tokens.push(x)) == firsts(tokens),
        !tokens.contains(x) ==> firsts(tokens.push(x)) == firsts(tokens).push(x),
{
    assert(tokens.push(x).drop_last() =~= tokens);
}

/// Appending an already-seen token turns the vector of the longer text
/// into the vector of the shorter one with that token's count bumped.
pub proof fn lemma_vector_of_push_seen(tokens: Seq<Seq<char>>, x: Seq<char>, j: int)
    requires
        0 <= j < firsts(tokens).len(),
        firsts(tokens)[j] == x,
    ensures
        vector_of(tokens.push(x)) =~= vector_of(tokens).update(
            j,
            (x, (vector_of(tokens)[j].1 + 1) as nat),
        ),
{
    assert(firsts(tokens).contains(x));
    lemma_firsts_contains(tokens, x);
    lemma_firsts_push(tokens, x);
    lemma_firsts_distinct(tokens);
    assert forall|i: int| 0 <= i < firsts(tokens).len() implies vector_of(tokens.push(x))[i]
        == vector_of(tokens).update(j, (x, (vector_of(tokens)[j].1 + 1) as nat))[i] by {
        lemma_count_in_push(tokens, x, firsts(tokens)[i]);
        if i != j {
            assert(firsts(tokens)[i] != x);
        }
    }
}

/// Appending a new token appends an entry with count one.
pub proof fn lemma_vector_of_push_new(tokens: Seq<Seq<char>>, x: Seq<char>)
    requires
        !tokens.contains(x),
    ensures
        vector_of(tokens.push(x)) =~= vector_of(tokens).push((x, 1nat)),
{
    lemma_firsts_push(tokens, x);
    lemma_count_in_contains(tokens, x);
    lemma_firsts_contains(tokens, x);
    assert forall|i: int| 0 <= i < firsts(tokens).len() + 1 implies vector_of(tokens.push(x))[i]
        == vector_of(tokens).push((x, 1nat))[i] by {
        let f = firsts(tokens).push(x)[i];
        lemma_count_in_push(tokens, x, f);
        if i < firsts(tokens).len() {
            if firsts(tokens)[i] == x {
                assert(firsts(tokens).contains(x));
            }
        }
    }
}

/// Bumping one entry's count raises the sum of counts by one.
pub proof fn lemma_sum_counts_update(v: Seq<(Seq<char>, nat)>, j: int, e: (Seq<char>, nat))
    requires
        0 <= j < v.len(),
    ensures
        sum_counts(v.update(j, e)) == sum_counts(v) - v[j].1 + e.1,
    decreases v.len(),
{
    if j == v.len() - 1 {
        assert(v.update(j, e).drop_last() =~= v.drop_last());
    } else {
        assert(v.update(j, e).drop_last() =~= v.drop_last().update(j, e));
        lemma_sum_counts_update(v.drop_last(), j, e);
    }
}

/// The counts of a text's vector sum to its token count: the term
/// weights `count / total` of any vectorized text sum to exactly one
/// when the text has at least one token, and the vector of a tokenless
/// text is empty.
pub proof fn lemma_weights_sum(tokens: Seq<Seq<char>>)
    ensures
        sum_counts(vector_of(tokens)) == tokens.len(),
        tokens.len() == 0 ==> vector_of(tokens) =~= Seq::<(Seq<char>, nat)>::empty(),
    decreases tokens.len(),
{
    if tokens.len() == 0 {
    } else {
        let p = tokens.drop_last();
        let x = tokens.last();
        lemma_weights_sum(p);
        assert(p.push(x) =~= tokens);
        if p.contains(x) {
            lemma_firsts_contains(p, x);
            let j = choose|j: int| 0 <= j < firsts(p).len() && firsts(p)[j] == x;
            lemma_vector_of_push_seen(p, x, j);
            lemma_sum_counts_update(vector_of(p), j, (x, (vector_of(p)[j].1 + 1) as nat));
            assert(vector_of(tokens) == vector_of(p).update(
                j,
                (x, (vector_of(p)[j].1 + 1) as nat),
            ));
        } else {
            lemma_vector_of_push_new(p, x);
            assert(vector_of(tokens).drop_last() =~= vector_of(p));
        }
    }
}

/// Every count in a text's vector is at least one.
pub proof fn lemma_vector_of_counts_positive(tokens: Seq<Seq<char>>)
    ensures
        forall|i: int|
            0 <= i < vector_of(tokens).len() ==> (#[trigger] vector_of(tokens)[i]).1 >= 1,
{
    assert forall|i: int| 0 <= i < vector_of(tokens).len() implies (#[trigger] vector_of(
        tokens,
    )[i]).1 >= 1 by {
        lemma_firsts_contains(tokens, firsts(tokens)[i]);
        assert(firsts(tokens).contains(firsts(tokens)[i]));
        lemma_count_in_contains(tokens, firsts(tokens)[i]);
    }
}

/// The vector of a text has distinct terms.
pub proof fn lemma_vector_of_distinct(tokens: Seq<Seq<char>>)
    ensures
        distinct_terms(vector_of(tokens)),
{
    lemma_firsts_distinct(tokens);
}

/// No single count exceeds the sum of all counts.
pub proof fn lemma_count_le_sum(v: Seq<(Seq<char>, nat)>, j: int)
    requires
        0 <= j < v.len(),
    ensures
        v[j].1 <= sum_counts(v),
    decreases v.len(),
{
    if j == v.len() - 1 {
        assert(v.last() == v[j]);
    } else {
        assert(v.drop_last()[j] == v[j]);
        lemma_count_le_sum(v.drop_last(), j);
    }
}

/// Computes term-frequency vectors for texts.
pub struct TfIdfCalculator;

impl TfIdfCalculator {
    pub fn new() -> (r: Self)
        ensures
            r == (TfIdfCalculator {}),
    {
        TfIdfCalculator
    }

    /// The term-frequency vector of a text: each distinct folded word
    /// token mapped to its occurrence count, with the total token
    /// count as the weights' common denominator.  A text without
    /// tokens yields an empty vector.
    pub fn calculate(&self, text: &str) -> (v: TermVector)
        ensures
            v@ == vector_of(tokens_of(text@)),
            v.total == words_of(text@).len(),
            v.wf(),
    {
        let tokens = tokenize(text);
        let ghost tseq = tokens_of(text@);
        let mut entries: Vec<TermEntry> = Vec::new();
        let mut i: usize = 0;
        while i < tokens.len()
            invariant
                i <= tokens.len(),
                tokens@.map(|k: int, w: String| w@) == tseq,
                entries@.map(|k: int, e: TermEntry| (e.term@, e.count as nat)) == vector_of(
                    tseq.take(i as int),
                ),
            decreases tokens.len() - i,
        {
            let ghost pre = tseq.take(i as int);
            let ghost m = entries@.map(|k: int, e: TermEntry| (e.term@, e.count as nat));
            proof {
                assert(pre.push(tseq[i as int]) =~= tseq.take(i as int + 1));
                assert(tokens@[i as int]@ == tseq[i as int]);
                lemma_weights_sum(pre);
                lemma_firsts_distinct(pre);
            }
            let mut j: usize = 0;
            let mut found = false;
            while j < entries.len()
                invariant_except_break
                    j <= entries.len(),
                    !found,
                    m == entries@.map(|k: int, e: TermEntry| (e.term@, e.count as nat)),
                    forall|k: int| 0 <= k < j ==> (#[trigger] m[k]).0 != tseq[i as int],
                    i < tokens.len(),
                    tokens@.map(|k: int, w: String| w@) == tseq,
                ensures
                    m == entries@.map(|k: int, e: TermEntry| (e.term@, e.count as nat)),
                    found ==> j < entries@.len() && m[j as int].0 == tseq[i as int],
                    !found ==> forall|k: int| 0 <= k < m.len() ==> (#[trigger] m[k]).0 != tseq[
                        i as int
                    ],
                decreases entries.len() - j,
            {
                if entries[j].term == tokens[i] {
                    found = true;
                    break;
                }
                j += 1;
            }
            if found {
                proof {
                    assert(firsts(pre)[j as int] == tseq[i as int]);
                    lemma_vector_of_push_seen(pre, tseq[i as int], j as int);
                    lemma_count_le_sum(m, j as int);
                    assert(sum_counts(m) == pre.len());
                }
                let c = entries[j].count;
                entries[j].count = c + 1;
                proof {
                    assert(entries@.map(|k: int, e: TermEntry| (e.term@, e.count as nat))
                        =~= m.update(j as int, (tseq[i as int], (m[j as int].1 + 1) as nat)));
                }
            } else {
                proof {
                    assert(forall|k: int|
                        0 <= k < m.len() ==> (#[trigger] m[k]).0 != tseq[i as int]);
                    if firsts(pre).contains(tseq[i as int]) {
                        let k = choose|k: int|
                            0 <= k < firsts(pre).len() && firsts(pre)[k] == tseq[i as int];
                        assert(m[k].0 == tseq[i as int]);
                    }
                    lemma_firsts_contains(pre, tseq[i as int]);
                    lemma_vector_of_push_new(pre, tseq[i as int]);
                }
                let term = fold_term(&tokens, i);
                entries.push(TermEntry { term, count: 1 });
                proof {
                    assert(entries@.map(|k: int, e: TermEntry| (e.term@, e.count as nat)) =~= m.push(
                        (tseq[i as int], 1nat),
                    ));
                }
            }
            i += 1;
        }
        proof {
            assert(tseq.take(tokens@.len() as int) =~= tseq);
            lemma_weights_sum(tseq);
            lemma_vector_of_distinct(tseq);
            lemma_vector_of_counts_positive(tseq);
            assert(tseq.len() == words_of(text@).len());
        }
        let total = tokens.len() as u64;
        TermVector { entries, total }
    }
}

/// Hands out an owned copy of one token.
fn fold_term(tokens: &Vec<String>, i: usize) -> (r: String)
    requires
        i < tokens@.len(),
    ensures
        r@ == tokens@[i as int]@,
{
    tokens[i].clone()
}

} // verus!
