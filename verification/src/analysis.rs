//! Aggregation: one submission against a set of comparison texts.
//!
//! The submission is vectorized once; every comparison text is then
//! scored against it and searched for verbatim phrase overlaps,
//! independently and in parallel.  Candidates whose similarity
//! percentage does not strictly exceed `SIGNIFICANT_PCT` are dropped;
//! the overall similarity is the best remaining score, the verdict is
//! whether it strictly exceeds `PLAGIARISM_PCT`, and retained results
//! keep the order in which the comparison inputs were supplied.

use vstd::prelude::*;
use rayon::iter::{IntoParallelRefIterator, ParallelIterator};
use crate::MAX_TOKENS;
use crate::phrases::{find_matching_phrases, match_list};
use crate::similarity::{
    cosine_similarity, norm_sq, pct_above, score_of, val_le, Score, ScoreModel,
};
use crate::text::words_of;
use crate::tfidf::{vector_of, TermVector, TfIdfCalculator};

verus! {

/// A candidate's similarity percentage must strictly exceed this to
/// appear in the output at all.
pub const SIGNIFICANT_PCT: u64 = 10;

/// The verdict is positive when the overall similarity percentage
/// strictly exceeds this.
pub const PLAGIARISM_PCT: u64 = 70;

/// One comparison text with its opaque identifier.
pub struct ComparisonInput {
    pub id: String,
    pub text: String,
}

impl View for ComparisonInput {
    type V = (Seq<char>, Seq<char>);

    open spec fn view(&self) -> (Seq<char>, Seq<char>) {
        (self.id@, self.text@)
    }
}

/// The outcome for one comparison input: its identifier, the exact
/// similarity score, and the verbatim phrase overlaps.
pub struct MatchResult {
    pub matched_id: String,
    pub score: Score,
    pub matched_phrases: Vec<String>,
}

/// The mathematical content of a `MatchResult`.
#[verifier::ext_equal]
pub struct MatchView {
    pub id: Seq<char>,
    pub score: ScoreModel,
    pub phrases: Seq<Seq<char>>,
}

impl View for MatchResult {
    type V = MatchView;

    open spec fn view(&self) -> MatchView {
        MatchView {
            id: self.matched_id@,
            score: self.score@,
            phrases: self.matched_phrases@.map(|i: int, s: String| s@),
        }
    }
}

/// The whole analysis of one submission.
pub struct AnalysisResult {
    pub submission_id: String,
    pub overall: Score,
    pub is_plagiarized: bool,
    pub matches: Vec<MatchResult>,
    pub processing_time_ms: u128,
}

/// The term-count vector a text vectorizes to.
pub open spec fn vector_model(text: Seq<char>) -> Seq<(Seq<char>, nat)> {
    vector_of(crate::text::tokens_of(text))
}

/// Whether a text's token count stays inside the bound that keeps the
/// exact score arithmetic in machine integers.
pub open spec fn within_limit(text: Seq<char>) -> bool {
    words_of(text).len() <= MAX_TOKENS
}

/// What one comparison yields before filtering: identifier, exact
/// score against the submission, and phrase overlaps.
pub open spec fn candidate_view(sub: Seq<char>, c: (Seq<char>, Seq<char>)) -> MatchView {
    MatchView {
        id: c.0,
        score: score_of(vector_model(sub), vector_model(c.1)),
        phrases: match_list(words_of(sub), words_of(c.1)),
    }
}

/// What `analyze_one` promises of its result.
pub open spec fn candidate_post(
    sub: Seq<char>,
    c: (Seq<char>, Seq<char>),
    r: Option<MatchResult>,
) -> bool {
    &&& r is Some <==> within_limit(c.1)
    &&& r is Some ==> (r->0)@ =~= candidate_view(sub, c) && (r->0).score.wf()
}

/// The retained results: the candidates whose percentage strictly
/// exceeds `SIGNIFICANT_PCT`, in input order.
pub open spec fn filtered_results(
    sub: Seq<char>,
    inputs: Seq<(Seq<char>, Seq<char>)>,
) -> Seq<MatchView>
    decreases inputs.len(),
{
    if inputs.len() == 0 {
        Seq::empty()
    } else {
        let r = filtered_results(sub, inputs.drop_last());
        let c = candidate_view(sub, inputs.last());
        if pct_above(c.score, SIGNIFICANT_PCT as nat) {
            r.push(c)
        } else {
            r
        }
    }
}

/// The all-zero score value.
pub open spec fn zero_model() -> ScoreModel {
    ScoreModel { d: 0, na: 0, nb: 0 }
}

/// The best score among the retained results, the zero score when
/// none remain.
pub open spec fn max_score(s: Seq<MatchView>) -> ScoreModel
    decreases s.len(),
{
    if s.len() == 0 {
        zero_model()
    } else {
        let m = max_score(s.drop_last());
        if val_le(s.last().score, m) {
            m
        } else {
            s.last().score
        }
    }
}

/// The overall score really is the maximum of the retained results:
/// it dominates the score of every retained result, and it is the
/// score of one of them — or the zero score when none remain.
pub proof fn lemma_max_score_is_bound(s: Seq<MatchView>)
    requires
        forall|i: int| 0 <= i < s.len() ==> crate::similarity::model_wf((#[trigger] s[i]).score),
    ensures
        forall|i: int| 0 <= i < s.len() ==> val_le((#[trigger] s[i]).score, max_score(s)),
        max_score(s) == zero_model() || exists|i: int|
            0 <= i < s.len() && max_score(s) == (#[trigger] s[i]).score,
        crate::similarity::model_wf(max_score(s)),
    decreases s.len(),
{
    if s.len() == 0 {
    } else {
        let s1 = s.drop_last();
        assert(forall|i: int| 0 <= i < s1.len() ==> s1[i] == s[i]);
        lemma_max_score_is_bound(s1);
        let m = max_score(s1);
        let last = s.last().score;
        assert(s.last() == s[s.len() - 1]);
        if val_le(last, m) {
            assert(max_score(s) == m);
            if m == zero_model() {
            } else {
                let i = choose|i: int| 0 <= i < s1.len() && m == s1[i].score;
                assert(s[i].score == m);
            }
            assert forall|i: int| 0 <= i < s.len() implies val_le(
                (#[trigger] s[i]).score,
                max_score(s),
            ) by {
                if i < s.len() - 1 {
                    assert(val_le(s1[i].score, m));
                }
            }
        } else {
            assert(max_score(s) == last);
            crate::similarity::lemma_val_le_total(last, m);
            assert(val_le(m, last));
            assert forall|i: int| 0 <= i < s.len() implies val_le(
                (#[trigger] s[i]).score,
                max_score(s),
            ) by {
                if i < s.len() - 1 {
                    crate::similarity::lemma_val_le_trans(s[i].score, m, last);
                } else {
                    assert(val_le(last, last));
                }
            }
        }
    }
}

/// Scores one comparison input against the already-vectorized
/// submission and collects its phrase overlaps.  Yields nothing
/// exactly when the comparison text has more tokens than the exact
/// arithmetic can carry.
fn analyze_one(sub_text: &str, sub_vec: &TermVector, cmp: &ComparisonInput) -> (r: Option<
    MatchResult,
>)
    requires
        sub_vec.wf(),
        sub_vec@ == vector_model(sub_text@),
        sub_vec.total <= MAX_TOKENS,
    ensures
        candidate_post(sub_text@, cmp@, r),
{
    let calc = TfIdfCalculator::new();
    let cmp_vec = calc.calculate(cmp.text.as_str());
    if cmp_vec.total > MAX_TOKENS {
        return None;
    }
    let score = cosine_similarity(sub_vec, &cmp_vec);
    let matched_phrases = find_matching_phrases(sub_text, cmp.text.as_str());
    let matched_id = cmp.id.clone();
    let result = MatchResult { matched_id, score, matched_phrases };
    proof {
        assert(result@ =~= candidate_view(sub_text@, cmp@));
    }
    Some(result)
}

/// Relies on rayon's `par_iter().map(..).collect::<Vec<_>>()`: it
/// applies the given function to every element of the slice and
/// collects the results in the input's order.  The closure only calls
/// `analyze_one`.
#[verifier::external_body]
fn par_candidates(sub_text: &str, sub_vec: &TermVector, inputs: &Vec<ComparisonInput>) -> (r: Vec<
    Option<MatchResult>,
>)
    requires
        sub_vec.wf(),
        sub_vec@ == vector_model(sub_text@),
        sub_vec.total <= MAX_TOKENS,
    ensures
        r@.len() == inputs@.len(),
        forall|i: int|
            0 <= i < r@.len() ==> candidate_post(sub_text@, inputs@[i]@, #[trigger] r@[i]),
{
    inputs.par_iter().map(|c| analyze_one(sub_text, sub_vec, c)).collect()
}

/// Relies on `std::time::Instant`: an opaque reading of a monotonic
/// clock; nothing can be promised of its value.
#[verifier::external_type_specification]
#[verifier::external_body]
pub struct ExInstant(std::time::Instant);

/// Relies on `std::time::Instant::now`: the clock reading at the call.
pub assume_specification[ std::time::Instant::now ]() -> std::time::Instant;

/// Relies on `std::time::Instant::elapsed`: the time since the
/// reading was taken; it depends on the clock, so nothing is promised.
pub assume_specification[ std::time::Instant::elapsed ](
    start: &std::time::Instant,
) -> std::time::Duration;

/// Relies on `std::time::Duration::as_millis`: the span in
/// milliseconds.
pub assume_specification[ std::time::Duration::as_millis ](d: &std::time::Duration) -> u128;

/// Analyzes one submission against its comparison inputs.
///
/// With no comparison inputs the result is immediate: zero overall
/// similarity, negative verdict, no matches, and no vectorization
/// work.  Otherwise the submission is vectorized once and every
/// comparison is scored independently; candidates at or below the
/// significance threshold are discarded entirely, the overall
/// similarity is the best retained score, the verdict compares it
/// against the plagiarism threshold, and retained results keep input
/// order.  `None` comes exactly when some text — submission or
/// comparison — has more word tokens than `MAX_TOKENS`, the bound
/// that keeps the exact arithmetic inside machine integers.
pub fn analyze_plagiarism(submission_id: &str, text: &str, comparisons: &Vec<ComparisonInput>) -> (r:
    Option<AnalysisResult>)
    ensures
        ({
            let cs = comparisons@.map(|i: int, c: ComparisonInput| c@);
            let kept = filtered_results(text@, cs);
            &&& (r is None <==> cs.len() > 0 && (!within_limit(text@) || exists|i: int|
                0 <= i < cs.len() && !within_limit((#[trigger] cs[i]).1)))
            &&& (r is Some ==> (r->0).submission_id@ == submission_id@)
            &&& (r is Some ==> (r->0).matches@.map(|i: int, m: MatchResult| m@) =~= kept)
            &&& (r is Some ==> (r->0).overall@ == max_score(kept))
            &&& (r is Some ==> (r->0).is_plagiarized == pct_above(
                max_score(kept),
                PLAGIARISM_PCT as nat,
            ))
        }),
{
    let start = std::time::Instant::now();
    let ghost cs = comparisons@.map(|i: int, c: ComparisonInput| c@);
    let submission_owned = submission_id.to_owned();
    if comparisons.len() == 0 {
        let matches: Vec<MatchResult> = Vec::new();
        proof {
            assert(matches@.map(|i: int, m: MatchResult| m@) =~= filtered_results(text@, cs));
        }
        let elapsed = start.elapsed();
        return Some(
            AnalysisResult {
                submission_id: submission_owned,
                overall: Score::zero(),
                is_plagiarized: false,
                matches,
                processing_time_ms: elapsed.as_millis(),
            },
        );
    }
    let calc = TfIdfCalculator::new();
    let sub_vec = calc.calculate(text);
    if sub_vec.total > MAX_TOKENS {
        proof {
            assert(!within_limit(text@));
        }
        return None;
    }
    let n_cmp = comparisons.len();
    let mut rest = par_candidates(text, &sub_vec, comparisons);
    let ghost all = rest@;
    let mut matches: Vec<MatchResult> = Vec::new();
    let mut best = Score::zero();
    let mut idx: usize = 0;
    proof {
        assert(cs.take(0) =~= Seq::<(Seq<char>, Seq<char>)>::empty());
        assert(matches@.map(|i: int, m: MatchResult| m@) =~= filtered_results(text@, cs.take(0)));
    }
    while rest.len() > 0
        invariant
            within_limit(text@),
            cs == comparisons@.map(|i: int, c: ComparisonInput| c@),
            all.len() == cs.len(),
            all.len() == n_cmp,
            idx + rest.len() == all.len(),
            rest@ == all.subrange(idx as int, all.len() as int),
            forall|i: int|
                0 <= i < all.len() ==> candidate_post(text@, cs[i], #[trigger] all[i]),
            matches@.map(|i: int, m: MatchResult| m@) == filtered_results(
                text@,
                cs.take(idx as int),
            ),
            best@ == max_score(filtered_results(text@, cs.take(idx as int))),
            best.wf(),
            best@.d > 0 ==> best@.na == norm_sq(vector_model(text@)),
            forall|i: int| 0 <= i < idx ==> within_limit((#[trigger] cs[i]).1),
        decreases rest@.len(),
    {
        let ghost pre = cs.take(idx as int);
        let item = rest.remove(0);
        proof {
            assert(all.subrange(idx as int, all.len() as int)[0] == all[idx as int]);
            assert(rest@ =~= all.subrange(idx as int + 1, all.len() as int));
            assert(candidate_post(text@, cs[idx as int], item));
            assert(cs.take(idx as int + 1).drop_last() =~= pre);
            assert(cs.take(idx as int + 1).last() == cs[idx as int]);
        }
        match item {
            None => {
                proof {
                    assert(!within_limit(cs[idx as int].1));
                }
                return None;
            },
            Some(m) => {
                let ghost cand = candidate_view(text@, cs[idx as int]);
                if m.score.exceeds_percent(SIGNIFICANT_PCT) {
                    proof {
                        assert(pct_above(cand.score, SIGNIFICANT_PCT as nat));
                        assert(cand.score.d * cand.score.d > 0 ==> cand.score.d > 0)
                            by (nonlinear_arith);
                        assert(10000 * (cand.score.d * cand.score.d) > 0);
                        assert(cand.score.d > 0) by {
                            if cand.score.d == 0 {
                                assert(10000 * (0 * 0) == 0) by (nonlinear_arith);
                            }
                        }
                        assert(cand.score.na == norm_sq(vector_model(text@)));
                    }
                    proof {
                        let newf = filtered_results(text@, cs.take(idx as int + 1));
                        let oldf = filtered_results(text@, pre);
                        assert(newf == oldf.push(cand));
                        assert(newf.drop_last() =~= oldf);
                        assert(newf.last() == cand);
                        assert(max_score(newf) == if val_le(cand.score, max_score(oldf)) {
                            max_score(oldf)
                        } else {
                            cand.score
                        });
                        assert(m.score@ == cand.score);
                    }
                    let keep_best = best.at_least(&m.score);
                    if !keep_best {
                        best = m.score;
                    }
                    matches.push(m);
                    proof {
                        assert(matches@.map(|i: int, mm: MatchResult| mm@) =~= filtered_results(
                            text@,
                            cs.take(idx as int + 1),
                        ));
                    }
                } else {
                    proof {
                        assert(filtered_results(text@, cs.take(idx as int + 1))
                            =~= filtered_results(text@, pre));
                    }
                }
            },
        }
        idx += 1;
    }
    proof {
        assert(cs.take(cs.len() as int) =~= cs);
    }
    let is_plagiarized = best.exceeds_percent(PLAGIARISM_PCT);
    let elapsed = start.elapsed();
    Some(
        AnalysisResult {
            submission_id: submission_owned,
            overall: best,
            is_plagiarized,
            matches,
            processing_time_ms: elapsed.as_millis(),
        },
    )
}

} // verus!
