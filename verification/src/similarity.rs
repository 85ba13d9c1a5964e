//! Cosine similarity over term-frequency vectors, computed exactly.
//!
//! The cosine similarity of two term-frequency vectors equals the
//! cosine similarity of the underlying count vectors: the weights are
//! the counts divided by each text's total, and the two totals cancel
//! between the dot product and the norms.  A score is therefore kept
//! as three integers — the dot product of the counts and the two
//! squared norms — standing for the value `dot / sqrt(na * nb)` in
//! `[0, 1]`.  Every comparison of scores, against a percentage
//! threshold or against another score, squares both sides and is
//! decided with exact integer arithmetic; no floating point and no
//! rounding is involved anywhere, and a zero norm yields the defined
//! value zero rather than a division by zero.

use vstd::prelude::*;
use crate::MAX_TOKENS;
use crate::tfidf::{
    TermVector, distinct_terms, has_term, lemma_count_le_sum, lemma_lookup_absent,
    lemma_lookup_at_index, lookup, sum_counts,
};

verus! {

/// The dot product of two count vectors: each of `a`'s counts times
/// the count `b` records for the same term.
pub open spec fn dot(a: Seq<(Seq<char>, nat)>, b: Seq<(Seq<char>, nat)>) -> nat
    decreases a.len(),
{
    if a.len() == 0 {
        0
    } else {
        dot(a.drop_last(), b) + a.last().1 * lookup(b, a.last().0)
    }
}

/// The squared Euclidean norm of a count vector.
pub open spec fn norm_sq(v: Seq<(Seq<char>, nat)>) -> nat
    decreases v.len(),
{
    if v.len() == 0 {
        0
    } else {
        norm_sq(v.drop_last()) + v.last().1 * v.last().1
    }
}

/// The exact value of a cosine-similarity score: the integers `d`,
/// `na`, `nb` stand for the real number `d / sqrt(na * nb)`, or zero
/// when either squared norm is zero.
pub struct ScoreModel {
    pub d: nat,
    pub na: nat,
    pub nb: nat,
}

/// The score of two vectors: dot product and the two squared norms.
pub open spec fn score_of(a: Seq<(Seq<char>, nat)>, b: Seq<(Seq<char>, nat)>) -> ScoreModel {
    ScoreModel { d: dot(a, b), na: norm_sq(a), nb: norm_sq(b) }
}

/// Whether a score, read as a percentage, strictly exceeds `t`:
/// `100 * d / sqrt(na * nb) > t`.  Both sides are non-negative, so
/// squaring preserves the comparison and keeps it in the integers.
/// A zero norm means the value is the defined zero, which exceeds no
/// non-negative threshold.
pub open spec fn pct_above(s: ScoreModel, t: nat) -> bool {
    s.na > 0 && s.nb > 0 && 10000 * (s.d * s.d) > (t * t) * (s.na * s.nb)
}

/// Whether the value of `s1` is at most the value of `s2`, decided by
/// cross-multiplying the squared values.  Well-formed scores have
/// `d > 0` only when both norms are positive, so the value of a score
/// is zero exactly when its dot product is.
pub open spec fn val_le(s1: ScoreModel, s2: ScoreModel) -> bool {
    if s1.d == 0 {
        true
    } else if s2.d == 0 {
        false
    } else {
        (s1.d * s1.d) * (s2.na * s2.nb) <= (s2.d * s2.d) * (s1.na * s1.nb)
    }
}

/// A score that stands for a real value: a zero norm only ever comes
/// with a zero dot product, so the value of a score is zero exactly
/// when its dot product is.  Every score this library computes
/// satisfies this.
pub open spec fn model_wf(s: ScoreModel) -> bool {
    (s.na == 0 || s.nb == 0) ==> s.d == 0
}

/// On well-formed scores, the value comparison is total.
pub proof fn lemma_val_le_total(s1: ScoreModel, s2: ScoreModel)
    requires
        model_wf(s1),
        model_wf(s2),
    ensures
        val_le(s1, s2) || val_le(s2, s1),
{
}

/// On well-formed scores, the value comparison is transitive.
pub proof fn lemma_val_le_trans(s1: ScoreModel, s2: ScoreModel, s3: ScoreModel)
    requires
        model_wf(s1),
        model_wf(s2),
        model_wf(s3),
        val_le(s1, s2),
        val_le(s2, s3),
    ensures
        val_le(s1, s3),
{
    if s1.d == 0 {
    } else {
        assert(s2.d > 0);
        assert(s3.d > 0);
        let a = (s1.d * s1.d) * (s2.na * s2.nb);
        let b = (s2.d * s2.d) * (s1.na * s1.nb);
        let c = (s2.d * s2.d) * (s3.na * s3.nb);
        let e = (s3.d * s3.d) * (s2.na * s2.nb);
        assert(a * c <= b * e) by (nonlinear_arith)
            requires
                a <= b,
                c <= e,
        ;
        assert(a * c == ((s2.d * s2.d) * (s2.na * s2.nb)) * ((s1.d * s1.d) * (s3.na * s3.nb)))
            by (nonlinear_arith)
            requires
                a == (s1.d * s1.d) * (s2.na * s2.nb),
                c == (s2.d * s2.d) * (s3.na * s3.nb),
        ;
        assert(b * e == ((s2.d * s2.d) * (s2.na * s2.nb)) * ((s3.d * s3.d) * (s1.na * s1.nb)))
            by (nonlinear_arith)
            requires
                b == (s2.d * s2.d) * (s1.na * s1.nb),
                e == (s3.d * s3.d) * (s2.na * s2.nb),
        ;
        let f = (s2.d * s2.d) * (s2.na * s2.nb);
        assert(f > 0) by (nonlinear_arith)
            requires
                f == (s2.d * s2.d) * (s2.na * s2.nb),
                s2.d > 0,
                s2.na > 0,
                s2.nb > 0,
        ;
        assert((s1.d * s1.d) * (s3.na * s3.nb) <= (s3.d * s3.d) * (s1.na * s1.nb))
            by (nonlinear_arith)
            requires
                f > 0,
                f * ((s1.d * s1.d) * (s3.na * s3.nb)) <= f * ((s3.d * s3.d) * (s1.na * s1.nb)),
        ;
    }
}

/// An exact cosine-similarity score, standing for the real value
/// `dot / sqrt(norm_a * norm_b)` (zero when either norm is zero).
#[derive(Clone, Copy)]
pub struct Score {
    pub dot: u64,
    pub norm_a: u64,
    pub norm_b: u64,
}

impl View for Score {
    type V = ScoreModel;

    open spec fn view(&self) -> ScoreModel {
        ScoreModel { d: self.dot as nat, na: self.norm_a as nat, nb: self.norm_b as nat }
    }
}

impl Score {
    /// Bounds under which every squared comparison fits in `u128`,
    /// and the guarantee that a zero norm comes with a zero dot.
    pub open spec fn wf(&self) -> bool {
        &&& self@.d <= MAX_TOKENS * MAX_TOKENS
        &&& self@.na <= MAX_TOKENS * MAX_TOKENS
        &&& self@.nb <= MAX_TOKENS * MAX_TOKENS
        &&& (self@.na == 0 || self@.nb == 0) ==> self@.d == 0
    }

    /// The all-zero score, the defined result when nothing matches.
    pub fn zero() -> (r: Score)
        ensures
            r@ == (ScoreModel { d: 0, na: 0, nb: 0 }),
            r.wf(),
    {
        Score { dot: 0, norm_a: 0, norm_b: 0 }
    }

    /// Whether the score, as a percentage, strictly exceeds `t`.
    pub fn exceeds_percent(&self, t: u64) -> (r: bool)
        requires
            self.wf(),
            t <= 100,
        ensures
            r == pct_above(self@, t as nat),
    {
        if self.norm_a == 0 || self.norm_b == 0 {
            return false;
        }
        proof {
            let m2 = (MAX_TOKENS * MAX_TOKENS) as int;
            lemma_mul_le(self@.d as int, self@.d as int, m2, m2);
            lemma_mul_le(self@.na as int, self@.nb as int, m2, m2);
            lemma_mul_le(t as int, t as int, 100, 100);
            lemma_mul_le((t * t) as int, (self@.na * self@.nb) as int, 10000, m2 * m2);
        }
        let d = self.dot as u128;
        let dd: u128 = d * d;
        let lhs: u128 = 10000u128 * dd;
        let tt: u128 = (t as u128) * (t as u128);
        let nn: u128 = (self.norm_a as u128) * (self.norm_b as u128);
        let rhs: u128 = tt * nn;
        lhs > rhs
    }

    /// Whether this score's value is at least `other`'s.  When both
    /// dot products are positive the two scores must share their
    /// first squared norm, which lets the common factor cancel and
    /// keeps the cross-multiplication inside `u128`.
    pub fn at_least(&self, other: &Score) -> (r: bool)
        requires
            self.wf(),
            other.wf(),
            (self@.d > 0 && other@.d > 0) ==> self@.na == other@.na,
        ensures
            r == val_le(other@, self@),
    {
        if other.dot == 0 {
            return true;
        }
        if self.dot == 0 {
            return false;
        }
        let ghost d1 = other@.d;
        let ghost d2 = self@.d;
        let ghost a = self@.na;
        let ghost nb1 = other@.nb;
        let ghost nb2 = self@.nb;
        let ghost m2 = (MAX_TOKENS * MAX_TOKENS) as nat;
        proof {
            lemma_mul_le(d1 as int, d1 as int, m2 as int, m2 as int);
            lemma_mul_le(d2 as int, d2 as int, m2 as int, m2 as int);
            lemma_mul_le((d1 * d1) as int, nb2 as int, (m2 * m2) as int, m2 as int);
            lemma_mul_le((d2 * d2) as int, nb1 as int, (m2 * m2) as int, m2 as int);
            assert((d1 * d1) * (a * nb2) == ((d1 * d1) * nb2) * a) by (nonlinear_arith);
            assert((d2 * d2) * (a * nb1) == ((d2 * d2) * nb1) * a) by (nonlinear_arith);
            assert((((d1 * d1) * nb2) * a <= ((d2 * d2) * nb1) * a) <==> ((d1 * d1) * nb2 <= (d2
                * d2) * nb1)) by (nonlinear_arith)
                requires
                    a > 0,
            ;
        }
        let l: u128 = (other.dot as u128) * (other.dot as u128) * (self.norm_b as u128);
        let rgt: u128 = (self.dot as u128) * (self.dot as u128) * (other.norm_b as u128);
        l <= rgt
    }
}

/// `a * b <= x * y` for non-negative factors bounded by `x` and `y`.
pub proof fn lemma_mul_le(a: int, b: int, x: int, y: int)
    by (nonlinear_arith)
    requires
        0 <= a <= x,
        0 <= b <= y,
    ensures
        a * b <= x * y,
{
}

/// The sum of counts can be peeled from the front as well as from the
/// back.
pub proof fn lemma_sum_counts_drop_first(v: Seq<(Seq<char>, nat)>)
    requires
        v.len() > 0,
    ensures
        sum_counts(v) == v[0].1 + sum_counts(v.drop_first()),
    decreases v.len(),
{
    if v.len() == 1 {
        assert(sum_counts(v) == sum_counts(v.drop_last()) + v.last().1);
        assert(v.drop_last().len() == 0);
        assert(sum_counts(v.drop_last()) == 0);
        assert(v.last() == v[0]);
        assert(v.drop_first().len() == 0);
        assert(sum_counts(v.drop_first()) == 0);
    } else {
        lemma_sum_counts_drop_first(v.drop_last());
        assert(v.drop_last().drop_first() =~= v.drop_first().drop_last());
        assert(v.drop_first().last() == v.last());
        assert(v.drop_last()[0] == v[0]);
        assert(sum_counts(v) == sum_counts(v.drop_last()) + v.last().1);
        assert(sum_counts(v.drop_first()) == sum_counts(v.drop_first().drop_last())
            + v.drop_first().last().1);
    }
}

/// No term's count exceeds the sum of all counts.
pub proof fn lemma_lookup_le_sum(v: Seq<(Seq<char>, nat)>, t: Seq<char>)
    ensures
        lookup(v, t) <= sum_counts(v),
    decreases v.len(),
{
    if v.len() > 0 {
        lemma_sum_counts_drop_first(v);
        lemma_lookup_le_sum(v.drop_first(), t);
    }
}

/// The dot product is at most the product of the two count totals.
pub proof fn lemma_dot_le_totals(a: Seq<(Seq<char>, nat)>, b: Seq<(Seq<char>, nat)>)
    ensures
        dot(a, b) <= sum_counts(a) * sum_counts(b),
    decreases a.len(),
{
    if a.len() == 0 {
        assert(sum_counts(a) * sum_counts(b) >= 0) by (nonlinear_arith);
    } else {
        lemma_dot_le_totals(a.drop_last(), b);
        lemma_lookup_le_sum(b, a.last().0);
        let sa = sum_counts(a.drop_last());
        let c = a.last().1;
        let sb = sum_counts(b);
        assert(sa * sb + c * lookup(b, a.last().0) <= sa * sb + c * sb) by (nonlinear_arith)
            requires
                lookup(b, a.last().0) <= sb,
                0 <= c,
        ;
        assert(sa * sb + c * sb == (sa + c) * sb) by (nonlinear_arith);
        assert(sum_counts(a) == sa + c);
    }
}

/// The squared norm is at most the squared sum of counts.
pub proof fn lemma_norm_le_total_sq(v: Seq<(Seq<char>, nat)>)
    ensures
        norm_sq(v) <= sum_counts(v) * sum_counts(v),
    decreases v.len(),
{
    if v.len() > 0 {
        lemma_norm_le_total_sq(v.drop_last());
        let s = sum_counts(v.drop_last());
        let c = v.last().1;
        assert(s * s + c * c <= (s + c) * (s + c)) by (nonlinear_arith);
        assert(sum_counts(v) == s + c);
    }
}

/// A shorter prefix has a smaller sum of counts.
pub proof fn lemma_sum_counts_take(v: Seq<(Seq<char>, nat)>, k: int)
    requires
        0 <= k <= v.len(),
    ensures
        sum_counts(v.take(k)) <= sum_counts(v),
    decreases v.len() - k,
{
    if k == v.len() {
        assert(v.take(k) =~= v);
    } else {
        lemma_sum_counts_take(v, k + 1);
        assert(v.take(k + 1).drop_last() =~= v.take(k));
        assert(sum_counts(v.take(k + 1)) == sum_counts(v.take(k)) + v[k].1);
    }
}

/// A vector with a positive count has a positive squared norm.
pub proof fn lemma_norm_pos(v: Seq<(Seq<char>, nat)>)
    requires
        v.len() > 0,
        forall|i: int| 0 <= i < v.len() ==> (#[trigger] v[i]).1 >= 1,
    ensures
        norm_sq(v) >= 1,
    decreases v.len(),
{
    let c = v.last().1;
    assert(c * c >= 1) by (nonlinear_arith)
        requires
            c >= 1,
    ;
}

/// The dot product against an empty vector is zero.
pub proof fn lemma_dot_empty_right(a: Seq<(Seq<char>, nat)>, b: Seq<(Seq<char>, nat)>)
    requires
        b.len() == 0,
    ensures
        dot(a, b) == 0,
    decreases a.len(),
{
    if a.len() > 0 {
        lemma_dot_empty_right(a.drop_last(), b);
        assert(dot(a, b) == dot(a.drop_last(), b) + a.last().1 * lookup(b, a.last().0));
        assert(lookup(b, a.last().0) == 0);
        assert(a.last().1 * 0 == 0) by (nonlinear_arith);
    }
}

/// Looking a term up past an appended entry: an already-present term
/// keeps its count, the appended term contributes its own, and any
/// other term still looks up to zero.
pub proof fn lemma_lookup_push(v: Seq<(Seq<char>, nat)>, e: (Seq<char>, nat), t: Seq<char>)
    ensures
        lookup(v.push(e), t) == if has_term(v, t) {
            lookup(v, t)
        } else if t == e.0 {
            e.1
        } else {
            0nat
        },
    decreases v.len(),
{
    assert(lookup(v.push(e), t) == if v.push(e)[0].0 == t {
        v.push(e)[0].1
    } else {
        lookup(v.push(e).drop_first(), t)
    });
    if v.len() == 0 {
        assert(v.push(e)[0] == e);
        assert(v.push(e).drop_first() =~= Seq::<(Seq<char>, nat)>::empty());
        assert(lookup(v.push(e).drop_first(), t) == 0);
        assert(!has_term(v, t));
    } else {
        assert(v.push(e)[0] == v[0]);
        assert(v.push(e).drop_first() =~= v.drop_first().push(e));
        lemma_lookup_push(v.drop_first(), e, t);
        assert(lookup(v, t) == if v[0].0 == t {
            v[0].1
        } else {
            lookup(v.drop_first(), t)
        });
        assert(has_term(v, t) <==> (v[0].0 == t || has_term(v.drop_first(), t))) by {
            if has_term(v, t) {
                let i = choose|i: int| 0 <= i < v.len() && v[i].0 == t;
                if i > 0 {
                    assert(v.drop_first()[i - 1].0 == t);
                }
            }
            if has_term(v.drop_first(), t) {
                let i = choose|i: int| 0 <= i < v.drop_first().len() && v.drop_first()[i].0 == t;
                assert(v[i + 1].0 == t);
            }
        }
        if !has_term(v, t) {
            assert(forall|i: int| 0 <= i < v.len() ==> (#[trigger] v[i]).0 != t);
            lemma_lookup_absent(v, t);
        }
    }
}

/// Appending to the right-hand vector an entry whose term it did not
/// yet record adds that entry's product to the dot product, provided
/// the left-hand vector records each term once.
#[verifier::rlimit(60)]
pub proof fn lemma_dot_push_right(
    b: Seq<(Seq<char>, nat)>,
    a: Seq<(Seq<char>, nat)>,
    e: (Seq<char>, nat),
)
    requires
        distinct_terms(b),
        !has_term(a, e.0),
    ensures
        dot(b, a.push(e)) == dot(b, a) + lookup(b, e.0) * e.1,
    decreases b.len(),
{
    if b.len() == 0 {
        assert(dot(b, a.push(e)) == 0);
        assert(dot(b, a) == 0);
        assert(lookup(b, e.0) == 0);
        assert(lookup(b, e.0) * e.1 == 0) by (nonlinear_arith)
            requires
                lookup(b, e.0) == 0,
        ;
    } else {
        let b1 = b.drop_last();
        let kb = b.last().0;
        let cb = b.last().1;
        assert(distinct_terms(b1)) by {
            assert(forall|i: int, j: int|
                0 <= i < j < b1.len() ==> b1[i] == b[i] && b1[j] == b[j]);
        }
        lemma_dot_push_right(b1, a, e);
        lemma_lookup_push(a, e, kb);
        assert(dot(b, a.push(e)) == dot(b1, a.push(e)) + cb * lookup(a.push(e), kb));
        assert(dot(b, a) == dot(b1, a) + cb * lookup(a, kb));
        assert(b1.push((kb, cb)) =~= b);
        lemma_lookup_push(b1, (kb, cb), e.0);
        if kb == e.0 {
            assert(!has_term(b1, kb)) by {
                if has_term(b1, kb) {
                    let i = choose|i: int| 0 <= i < b1.len() && b1[i].0 == kb;
                    assert(b[i].0 == b[b.len() - 1].0);
                }
            }
            lemma_lookup_absent_from_no_term(b1, e.0);
            assert(lookup(b, e.0) == cb);
            assert(!has_term(a, kb));
            assert(lookup(a.push(e), kb) == e.1);
            lemma_lookup_absent_from_no_term(a, kb);
            assert(lookup(a, kb) == 0);
            assert(cb * 0 == 0) by (nonlinear_arith);
            assert(lookup(b1, e.0) * e.1 == 0) by (nonlinear_arith)
                requires
                    lookup(b1, e.0) == 0,
            ;
            assert(cb * lookup(a.push(e), kb) == cb * e.1);
            assert(lookup(b, e.0) * e.1 == cb * e.1);
            assert(dot(b, a.push(e)) == dot(b1, a) + cb * e.1);
            assert(dot(b, a) == dot(b1, a));
        } else {
            if !has_term(b1, e.0) {
                lemma_lookup_absent_from_no_term(b1, e.0);
            }
            assert(lookup(b, e.0) == lookup(b1, e.0));
            if !has_term(a, kb) {
                lemma_lookup_absent_from_no_term(a, kb);
            }
            assert(lookup(a.push(e), kb) == lookup(a, kb));
            assert(cb * lookup(a.push(e), kb) == cb * lookup(a, kb));
            assert(dot(b, a.push(e)) == dot(b1, a) + lookup(b1, e.0) * e.1 + cb * lookup(a, kb));
            assert(dot(b, a) == dot(b1, a) + cb * lookup(a, kb));
            assert(lookup(b, e.0) * e.1 == lookup(b1, e.0) * e.1);
        }
    }
}

/// A vector without a term looks that term up to zero.
pub proof fn lemma_lookup_absent_from_no_term(v: Seq<(Seq<char>, nat)>, t: Seq<char>)
    requires
        !has_term(v, t),
    ensures
        lookup(v, t) == 0,
{
    assert(forall|i: int| 0 <= i < v.len() ==> (#[trigger] v[i]).0 != t);
    lemma_lookup_absent(v, t);
}

/// The dot product does not depend on the order of its arguments:
/// `score(A, B)` and `score(B, A)` share their dot product, and their
/// norms swap, so the two stand for the same real value.
pub proof fn lemma_dot_symmetric(a: Seq<(Seq<char>, nat)>, b: Seq<(Seq<char>, nat)>)
    requires
        distinct_terms(a),
        distinct_terms(b),
    ensures
        dot(a, b) == dot(b, a),
    decreases a.len(),
{
    if a.len() == 0 {
        lemma_dot_empty_right(b, a);
    } else {
        let a1 = a.drop_last();
        let e = a.last();
        assert(distinct_terms(a1)) by {
            assert(forall|i: int, j: int|
                0 <= i < j < a1.len() ==> a1[i] == a[i] && a1[j] == a[j]);
        }
        lemma_dot_symmetric(a1, b);
        assert(!has_term(a1, e.0)) by {
            if has_term(a1, e.0) {
                let i = choose|i: int| 0 <= i < a1.len() && a1[i].0 == e.0;
                assert(a[i].0 == a[a.len() - 1].0);
            }
        }
        lemma_dot_push_right(b, a1, e);
        assert(a1.push(e) =~= a);
        assert(e.1 * lookup(b, e.0) == lookup(b, e.0) * e.1) by (nonlinear_arith);
    }
}

/// The dot product of a vector with itself is its squared norm: a
/// non-empty vector scored against itself has the exact value one.
pub proof fn lemma_dot_self(a: Seq<(Seq<char>, nat)>)
    requires
        distinct_terms(a),
    ensures
        dot(a, a) == norm_sq(a),
    decreases a.len(),
{
    if a.len() > 0 {
        let a1 = a.drop_last();
        let e = a.last();
        assert(distinct_terms(a1)) by {
            assert(forall|i: int, j: int|
                0 <= i < j < a1.len() ==> a1[i] == a[i] && a1[j] == a[j]);
        }
        assert(!has_term(a1, e.0)) by {
            if has_term(a1, e.0) {
                let i = choose|i: int| 0 <= i < a1.len() && a1[i].0 == e.0;
                assert(a[i].0 == a[a.len() - 1].0);
            }
        }
        lemma_dot_self(a1);
        lemma_dot_push_right(a1, a1, e);
        assert(a1.push(e) =~= a);
        lemma_lookup_at_index(a, a.len() - 1);
        lemma_lookup_absent_from_no_term(a1, e.0);
        assert(lookup(a1, e.0) * e.1 == 0) by (nonlinear_arith)
            requires
                lookup(a1, e.0) == 0,
        ;
        assert(dot(a, a) == dot(a1, a) + e.1 * lookup(a, e.0));
        assert(dot(a1, a) == dot(a1, a1.push(e)));
    }
}

/// Vectors over disjoint term sets have dot product zero: their score
/// is exactly zero.
pub proof fn lemma_dot_disjoint(a: Seq<(Seq<char>, nat)>, b: Seq<(Seq<char>, nat)>)
    requires
        forall|i: int| 0 <= i < a.len() ==> !has_term(b, (#[trigger] a[i]).0),
    ensures
        dot(a, b) == 0,
    decreases a.len(),
{
    if a.len() > 0 {
        lemma_dot_disjoint(a.drop_last(), b);
        lemma_lookup_absent_from_no_term(b, a.last().0);
        assert(a.last().1 * lookup(b, a.last().0) == 0) by (nonlinear_arith)
            requires
                lookup(b, a.last().0) == 0,
        ;
    }
}

/// A score involving an empty vector is exactly zero: the empty side
/// contributes a zero norm and the dot product vanishes, so the
/// defined result is zero — no percentage threshold is exceeded.
pub proof fn lemma_empty_vector_scores_zero(a: Seq<(Seq<char>, nat)>, b: Seq<(Seq<char>, nat)>)
    requires
        a.len() == 0 || b.len() == 0,
    ensures
        dot(a, b) == 0,
        a.len() == 0 ==> norm_sq(a) == 0,
        b.len() == 0 ==> norm_sq(b) == 0,
        forall|t: nat| !pct_above(score_of(a, b), t),
    decreases a.len(),
{
    if a.len() == 0 {
    } else {
        lemma_dot_empty_right(a, b);
    }
    assert forall|t: nat| !pct_above(score_of(a, b), t) by {
        assert(10000 * (dot(a, b) * dot(a, b)) == 0) by (nonlinear_arith)
            requires
                dot(a, b) == 0,
        ;
        assert((t * t) * (norm_sq(a) * norm_sq(b)) >= 0) by (nonlinear_arith);
    }
}

/// The counts `b` records for `a`'s terms, squared and summed: the
/// squared norm of `b` projected onto `a`'s term set.
spec fn lookup_norm_sq(a: Seq<(Seq<char>, nat)>, b: Seq<(Seq<char>, nat)>) -> nat
    decreases a.len(),
{
    if a.len() == 0 {
        0
    } else {
        lookup_norm_sq(a.drop_last(), b) + lookup(b, a.last().0) * lookup(b, a.last().0)
    }
}

/// `b` with its entry for term `k` removed, if it has one.
spec fn remove_term(b: Seq<(Seq<char>, nat)>, k: Seq<char>) -> Seq<(Seq<char>, nat)>
    decreases b.len(),
{
    if b.len() == 0 {
        b
    } else if b[0].0 == k {
        b.drop_first()
    } else {
        seq![b[0]] + remove_term(b.drop_first(), k)
    }
}

/// The squared norm can be peeled from the front as well as from the
/// back.
proof fn lemma_norm_sq_drop_first(v: Seq<(Seq<char>, nat)>)
    requires
        v.len() > 0,
    ensures
        norm_sq(v) == v[0].1 * v[0].1 + norm_sq(v.drop_first()),
    decreases v.len(),
{
    if v.len() == 1 {
        assert(v.drop_first().len() == 0);
        assert(norm_sq(v) == norm_sq(v.drop_last()) + v.last().1 * v.last().1);
        assert(v.drop_last().len() == 0);
        assert(v.last() == v[0]);
    } else {
        lemma_norm_sq_drop_first(v.drop_last());
        assert(v.drop_last().drop_first() =~= v.drop_first().drop_last());
        assert(v.drop_first().last() == v.last());
        assert(v.drop_last()[0] == v[0]);
        assert(norm_sq(v) == norm_sq(v.drop_last()) + v.last().1 * v.last().1);
        assert(norm_sq(v.drop_first()) == norm_sq(v.drop_first().drop_last())
            + v.drop_first().last().1 * v.drop_first().last().1);
    }
}

/// Removing a term's entry removes exactly its square from the norm
/// and leaves every other term's count in place.
proof fn lemma_remove_term(b: Seq<(Seq<char>, nat)>, k: Seq<char>)
    requires
        distinct_terms(b),
    ensures
        !has_term(b, k) ==> remove_term(b, k) == b,
        has_term(b, k) ==> norm_sq(remove_term(b, k)) + lookup(b, k) * lookup(b, k) == norm_sq(b),
        distinct_terms(remove_term(b, k)),
        forall|t: Seq<char>| t != k ==> lookup(remove_term(b, k), t) == lookup(b, t),
    decreases b.len(),
{
    if b.len() == 0 {
    } else if b[0].0 == k {
        assert(remove_term(b, k) == b.drop_first());
        assert(has_term(b, k)) by {
            assert(b[0].0 == k);
        }
        lemma_norm_sq_drop_first(b);
        assert(lookup(b, k) == b[0].1);
        assert(distinct_terms(b.drop_first())) by {
            assert(forall|i: int, j: int|
                0 <= i < j < b.drop_first().len() ==> b.drop_first()[i] == b[i + 1]
                    && b.drop_first()[j] == b[j + 1]);
        }
        assert forall|t: Seq<char>| t != k implies lookup(remove_term(b, k), t) == lookup(b, t) by {
            assert(lookup(b, t) == lookup(b.drop_first(), t));
        }
    } else {
        let tail = b.drop_first();
        assert(distinct_terms(tail)) by {
            assert(forall|i: int, j: int|
                0 <= i < j < tail.len() ==> tail[i] == b[i + 1] && tail[j] == b[j + 1]);
        }
        lemma_remove_term(tail, k);
        let r = seq![b[0]] + remove_term(tail, k);
        assert(remove_term(b, k) == r);
        assert(r[0] == b[0]);
        assert(r.drop_first() =~= remove_term(tail, k));
        assert(has_term(b, k) <==> has_term(tail, k)) by {
            if has_term(b, k) {
                let i = choose|i: int| 0 <= i < b.len() && b[i].0 == k;
                assert(i > 0);
                assert(tail[i - 1].0 == k);
            }
            if has_term(tail, k) {
                let i = choose|i: int| 0 <= i < tail.len() && tail[i].0 == k;
                assert(b[i + 1].0 == k);
            }
        }
        if !has_term(b, k) {
            assert(remove_term(tail, k) == tail);
            assert(r =~= b);
        } else {
            lemma_norm_sq_drop_first(b);
            lemma_norm_sq_drop_first(r);
            assert(lookup(b, k) == lookup(tail, k));
            assert(norm_sq(r) == b[0].1 * b[0].1 + norm_sq(remove_term(tail, k)));
        }
        assert(distinct_terms(r)) by {
            assert forall|i: int, j: int| 0 <= i < j < r.len() implies r[i].0 != r[j].0 by {
                if i == 0 {
                    assert(r[j].0 == remove_term(tail, k)[j - 1].0);
                    assert(r[0].0 == b[0].0);
                    if r[j].0 == r[0].0 {
                        assert(has_term(remove_term(tail, k), r[0].0));
                        lemma_has_term_in_removed(tail, k, r[0].0);
                        let x = choose|x: int| 0 <= x < tail.len() && tail[x].0 == b[0].0;
                        assert(b[x + 1].0 == b[0].0);
                    }
                } else {
                    assert(r[i].0 == remove_term(tail, k)[i - 1].0);
                    assert(r[j].0 == remove_term(tail, k)[j - 1].0);
                }
            }
        }
        assert forall|t: Seq<char>| t != k implies lookup(remove_term(b, k), t) == lookup(b, t) by {
            assert(lookup(r, t) == if r[0].0 == t {
                r[0].1
            } else {
                lookup(r.drop_first(), t)
            });
            assert(lookup(b, t) == if b[0].0 == t {
                b[0].1
            } else {
                lookup(tail, t)
            });
        }
    }
}

/// A term present after a removal was present before it.
proof fn lemma_has_term_in_removed(b: Seq<(Seq<char>, nat)>, k: Seq<char>, t: Seq<char>)
    requires
        has_term(remove_term(b, k), t),
    ensures
        has_term(b, t),
    decreases b.len(),
{
    if b.len() == 0 {
    } else if b[0].0 == k {
        let i = choose|i: int|
            0 <= i < remove_term(b, k).len() && remove_term(b, k)[i].0 == t;
        assert(b[i + 1].0 == t);
    } else {
        let r = seq![b[0]] + remove_term(b.drop_first(), k);
        let i = choose|i: int| 0 <= i < r.len() && r[i].0 == t;
        if i == 0 {
            assert(b[0].0 == t);
        } else {
            assert(remove_term(b.drop_first(), k)[i - 1].0 == t);
            assert(has_term(remove_term(b.drop_first(), k), t));
            lemma_has_term_in_removed(b.drop_first(), k, t);
            let x = choose|x: int|
                0 <= x < b.drop_first().len() && b.drop_first()[x].0 == t;
            assert(b[x + 1].0 == t);
        }
    }
}

/// Two right-hand vectors that agree on all of `a`'s terms project
/// onto `a` with the same squared norm.
proof fn lemma_lookup_norm_sq_agree(
    a: Seq<(Seq<char>, nat)>,
    b1: Seq<(Seq<char>, nat)>,
    b2: Seq<(Seq<char>, nat)>,
)
    requires
        forall|i: int| 0 <= i < a.len() ==> lookup(b1, (#[trigger] a[i]).0) == lookup(b2, a[i].0),
    ensures
        lookup_norm_sq(a, b1) == lookup_norm_sq(a, b2),
    decreases a.len(),
{
    if a.len() > 0 {
        assert(forall|i: int| 0 <= i < a.drop_last().len() ==> a.drop_last()[i] == a[i]);
        lemma_lookup_norm_sq_agree(a.drop_last(), b1, b2);
        assert(a.last() == a[a.len() - 1]);
    }
}

/// The projection of `b` onto a duplicate-free term set never
/// exceeds `b`'s own squared norm.
proof fn lemma_lookup_norm_le(a: Seq<(Seq<char>, nat)>, b: Seq<(Seq<char>, nat)>)
    requires
        distinct_terms(a),
        distinct_terms(b),
    ensures
        lookup_norm_sq(a, b) <= norm_sq(b),
    decreases a.len(),
{
    if a.len() == 0 {
    } else {
        let a1 = a.drop_last();
        let k = a.last().0;
        assert(distinct_terms(a1)) by {
            assert(forall|i: int, j: int|
                0 <= i < j < a1.len() ==> a1[i] == a[i] && a1[j] == a[j]);
        }
        assert(!has_term(a1, k)) by {
            if has_term(a1, k) {
                let i = choose|i: int| 0 <= i < a1.len() && a1[i].0 == k;
                assert(a[i].0 == a[a.len() - 1].0);
            }
        }
        lemma_remove_term(b, k);
        let br = remove_term(b, k);
        assert forall|i: int| 0 <= i < a1.len() implies lookup(b, (#[trigger] a1[i]).0) == lookup(
            br,
            a1[i].0,
        ) by {
            assert(a1[i].0 != k) by {
                if a1[i].0 == k {
                    assert(has_term(a1, k));
                }
            }
        }
        lemma_lookup_norm_sq_agree(a1, b, br);
        lemma_lookup_norm_le(a1, br);
        if has_term(b, k) {
        } else {
            lemma_lookup_absent_from_no_term(b, k);
            assert(lookup(b, k) * lookup(b, k) == 0) by (nonlinear_arith)
                requires
                    lookup(b, k) == 0,
            ;
        }
    }
}

/// One step of the Cauchy-Schwarz induction, in the integers: from
/// `cc * cc <= aa * bb` it follows that extending the running dot
/// product by `x * y` and the running norms by `x * x` and `y * y`
/// keeps the squared dot product below the product of the norms.
proof fn lemma_cs_step(aa: nat, bb: nat, cc: nat, x: nat, y: nat)
    requires
        cc * cc <= aa * bb,
    ensures
        (cc + x * y) * (cc + x * y) <= (aa + x * x) * (bb + y * y),
{
    let p = aa * (y * y);
    let q = (x * x) * bb;
    lemma_am_gm(p as int, q as int);
    assert(p * q == ((x * y) * (x * y)) * (aa * bb)) by (nonlinear_arith)
        requires
            p == aa * (y * y),
            q == (x * x) * bb,
    ;
    assert(((x * y) * (x * y)) * (aa * bb) >= ((x * y) * (x * y)) * (cc * cc))
        by (nonlinear_arith)
        requires
            cc * cc <= aa * bb,
    ;
    assert((2 * ((x * y) * cc)) * (2 * ((x * y) * cc)) == 4 * (((x * y) * (x * y)) * (cc * cc)))
        by (nonlinear_arith);
    assert((p + q) * (p + q) >= (2 * ((x * y) * cc)) * (2 * ((x * y) * cc)));
    lemma_sq_order((2 * ((x * y) * cc)) as int, (p + q) as int);
    assert(p + q >= 2 * ((x * y) * cc));
    assert((cc + x * y) * (cc + x * y) <= (aa + x * x) * (bb + y * y)) by (nonlinear_arith)
        requires
            cc * cc <= aa * bb,
            p + q >= 2 * ((x * y) * cc),
            p == aa * (y * y),
            q == (x * x) * bb,
    ;
}

/// For non-negative integers, the square of a sum dominates four
/// times the product.
proof fn lemma_am_gm(p: int, q: int)
    by (nonlinear_arith)
    requires
        p >= 0,
        q >= 0,
    ensures
        (p + q) * (p + q) >= 4 * (p * q),
{
}

/// Non-negative integers with ordered squares are ordered.
proof fn lemma_sq_order(v: int, u: int)
    by (nonlinear_arith)
    requires
        0 <= v,
        0 <= u,
        v * v <= u * u,
    ensures
        v <= u,
{
}

/// The squared dot product is bounded by the product of the left
/// vector's squared norm and the projected squared norm of the right.
proof fn lemma_dot_sq_le(a: Seq<(Seq<char>, nat)>, b: Seq<(Seq<char>, nat)>)
    ensures
        dot(a, b) * dot(a, b) <= norm_sq(a) * lookup_norm_sq(a, b),
    decreases a.len(),
{
    if a.len() == 0 {
        assert(norm_sq(a) * lookup_norm_sq(a, b) >= 0) by (nonlinear_arith);
    } else {
        lemma_dot_sq_le(a.drop_last(), b);
        lemma_cs_step(
            norm_sq(a.drop_last()),
            lookup_norm_sq(a.drop_last(), b),
            dot(a.drop_last(), b),
            a.last().1,
            lookup(b, a.last().0),
        );
        assert(a.last().1 * lookup(b, a.last().0) == lookup(b, a.last().0) * a.last().1)
            by (nonlinear_arith);
    }
}

/// Cauchy-Schwarz for count vectors: the squared dot product never
/// exceeds the product of the squared norms, so the value any
/// well-formed score stands for lies in `[0, 1]` and no percentage
/// threshold of one hundred or more is ever exceeded.
pub proof fn lemma_cosine_at_most_one(a: Seq<(Seq<char>, nat)>, b: Seq<(Seq<char>, nat)>)
    requires
        distinct_terms(a),
        distinct_terms(b),
    ensures
        score_of(a, b).d * score_of(a, b).d <= score_of(a, b).na * score_of(a, b).nb,
        forall|t: nat| t >= 100 ==> !pct_above(score_of(a, b), t),
{
    lemma_dot_sq_le(a, b);
    lemma_lookup_norm_le(a, b);
    assert(norm_sq(a) * lookup_norm_sq(a, b) <= norm_sq(a) * norm_sq(b)) by (nonlinear_arith)
        requires
            lookup_norm_sq(a, b) <= norm_sq(b),
    ;
    assert forall|t: nat| t >= 100 implies !pct_above(score_of(a, b), t) by {
        let d = dot(a, b);
        let nn = norm_sq(a) * norm_sq(b);
        assert(10000 * (d * d) <= 10000 * nn);
        assert(10000 * nn <= (t * t) * nn) by (nonlinear_arith)
            requires
                t >= 100,
        ;
    }
}

/// Cosine similarity is symmetric: scoring `a` against `b` and `b`
/// against `a` yields the same dot product with the norms swapped, so
/// the two scores stand for the same value and clear exactly the same
/// percentage thresholds.
pub proof fn lemma_cosine_symmetric(a: Seq<(Seq<char>, nat)>, b: Seq<(Seq<char>, nat)>)
    requires
        distinct_terms(a),
        distinct_terms(b),
    ensures
        score_of(a, b).d == score_of(b, a).d,
        score_of(a, b).na == score_of(b, a).nb,
        score_of(a, b).nb == score_of(b, a).na,
        forall|t: nat| pct_above(score_of(a, b), t) == pct_above(score_of(b, a), t),
{
    lemma_dot_symmetric(a, b);
    assert forall|t: nat| pct_above(score_of(a, b), t) == pct_above(score_of(b, a), t) by {
        assert(norm_sq(a) * norm_sq(b) == norm_sq(b) * norm_sq(a)) by (nonlinear_arith);
    }
}

/// The cosine similarity of a non-empty vector with itself is exactly
/// one: the dot product equals the squared norm, which is positive,
/// so the squared value `d * d / (na * nb)` is exactly `1`.
pub proof fn lemma_cosine_self(a: Seq<(Seq<char>, nat)>)
    requires
        distinct_terms(a),
        a.len() > 0,
        forall|i: int| 0 <= i < a.len() ==> (#[trigger] a[i]).1 >= 1,
    ensures
        score_of(a, a).d == norm_sq(a),
        score_of(a, a).na == norm_sq(a),
        score_of(a, a).nb == norm_sq(a),
        score_of(a, a).d * score_of(a, a).d == score_of(a, a).na * score_of(a, a).nb,
        score_of(a, a).na > 0,
{
    lemma_dot_self(a);
    lemma_norm_pos(a);
}

/// The cosine similarity of two vectors over disjoint term sets is
/// exactly zero.
pub proof fn lemma_cosine_disjoint(a: Seq<(Seq<char>, nat)>, b: Seq<(Seq<char>, nat)>)
    requires
        forall|i: int| 0 <= i < a.len() ==> !has_term(b, (#[trigger] a[i]).0),
    ensures
        score_of(a, b).d == 0,
        forall|t: nat| !pct_above(score_of(a, b), t),
{
    lemma_dot_disjoint(a, b);
    assert forall|t: nat| !pct_above(score_of(a, b), t) by {
        assert(10000 * (0nat * 0nat) == 0) by (nonlinear_arith);
        assert((t * t) * (norm_sq(a) * norm_sq(b)) >= 0) by (nonlinear_arith);
    }
}

/// The cosine similarity of two term-frequency vectors, as exact
/// score data.  The dot product runs over the first vector's terms
/// against the counts the second records for them; terms present in
/// only one vector contribute to that vector's norm alone.  When
/// either norm is zero the result is the defined zero score — an
/// explicit guard, not an accident of arithmetic.
pub fn cosine_similarity(vec1: &TermVector, vec2: &TermVector) -> (r: Score)
    requires
        vec1.wf(),
        vec2.wf(),
        vec1.total <= MAX_TOKENS,
        vec2.total <= MAX_TOKENS,
    ensures
        r@ == score_of(vec1@, vec2@),
        r.wf(),
{
    let ghost a = vec1@;
    let ghost b = vec2@;
    proof {
        lemma_dot_le_totals(a, b);
        lemma_norm_le_total_sq(a);
        lemma_norm_le_total_sq(b);
        lemma_mul_le(sum_counts(a) as int, sum_counts(b) as int, MAX_TOKENS as int,
            MAX_TOKENS as int);
        lemma_mul_le(sum_counts(a) as int, sum_counts(a) as int, MAX_TOKENS as int,
            MAX_TOKENS as int);
        lemma_mul_le(sum_counts(b) as int, sum_counts(b) as int, MAX_TOKENS as int,
            MAX_TOKENS as int);
    }
    let mut dot_acc: u64 = 0;
    let mut n1: u64 = 0;
    let mut k: usize = 0;
    while k < vec1.entries.len()
        invariant
            vec1.wf(),
            vec2.wf(),
            vec1.total <= MAX_TOKENS,
            vec2.total <= MAX_TOKENS,
            a == vec1@,
            b == vec2@,
            k <= a.len(),
            dot_acc as nat == dot(a.take(k as int), b),
            n1 as nat == norm_sq(a.take(k as int)),
        decreases a.len() - k,
    {
        let ghost pre = a.take(k as int);
        proof {
            assert(a.take(k as int + 1).drop_last() =~= pre);
            assert(a.take(k as int + 1).last() == a[k as int]);
            lemma_count_le_sum(a, k as int);
            lemma_lookup_le_sum(b, a[k as int].0);
            lemma_sum_counts_take(a, k as int + 1);
            lemma_dot_le_totals(a.take(k as int + 1), b);
            lemma_norm_le_total_sq(a.take(k as int + 1));
            lemma_mul_le(sum_counts(a.take(k as int + 1)) as int, sum_counts(b) as int,
                MAX_TOKENS as int, MAX_TOKENS as int);
            lemma_mul_le(sum_counts(a.take(k as int + 1)) as int,
                sum_counts(a.take(k as int + 1)) as int, MAX_TOKENS as int, MAX_TOKENS as int);
            lemma_mul_le(a[k as int].1 as int, a[k as int].1 as int, MAX_TOKENS as int,
                MAX_TOKENS as int);
            lemma_mul_le(a[k as int].1 as int, lookup(b, a[k as int].0) as int, MAX_TOKENS as int,
                MAX_TOKENS as int);
        }
        let c = vec1.entries[k].count;
        let l = vec2.count_of(vec1.entries[k].term.as_str());
        dot_acc = dot_acc + c * l;
        n1 = n1 + c * c;
        k += 1;
    }
    proof {
        assert(a.take(a.len() as int) =~= a);
    }
    let mut n2: u64 = 0;
    let mut k2: usize = 0;
    while k2 < vec2.entries.len()
        invariant
            vec2.wf(),
            vec2.total <= MAX_TOKENS,
            b == vec2@,
            k2 <= b.len(),
            n2 as nat == norm_sq(b.take(k2 as int)),
        decreases b.len() - k2,
    {
        proof {
            assert(b.take(k2 as int + 1).drop_last() =~= b.take(k2 as int));
            assert(b.take(k2 as int + 1).last() == b[k2 as int]);
            lemma_count_le_sum(b, k2 as int);
            lemma_sum_counts_take(b, k2 as int + 1);
            lemma_norm_le_total_sq(b.take(k2 as int + 1));
            lemma_mul_le(sum_counts(b.take(k2 as int + 1)) as int,
                sum_counts(b.take(k2 as int + 1)) as int, MAX_TOKENS as int, MAX_TOKENS as int);
            lemma_mul_le(b[k2 as int].1 as int, b[k2 as int].1 as int, MAX_TOKENS as int,
                MAX_TOKENS as int);
        }
        let c = vec2.entries[k2].count;
        n2 = n2 + c * c;
        k2 += 1;
    }
    proof {
        assert(b.take(b.len() as int) =~= b);
    }
    if n1 == 0 || n2 == 0 {
        proof {
            if a.len() > 0 && n1 == 0 {
                lemma_norm_pos(a);
            }
            if b.len() > 0 && n2 == 0 {
                lemma_norm_pos(b);
            }
            lemma_empty_vector_scores_zero(a, b);
        }
        return Score { dot: 0, norm_a: n1, norm_b: n2 };
    }
    Score { dot: dot_acc, norm_a: n1, norm_b: n2 }
}

} // verus!
