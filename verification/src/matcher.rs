//! The fuzzy matcher behind the ranking, and the score it yields.

use fuzzy_matcher::skim::SkimMatcherV2;
use fuzzy_matcher::FuzzyMatcher;
use vstd::prelude::*;
use vstd::string::StrSliceExecFns;

verus! {

/// The longest candidate or query, in characters, that is handed to the
/// matcher. The matcher adds up its scores in 32-bit integers: a matched
/// character earns at most 32 points and a skipped one costs at most 4, so
/// no sum over this many characters leaves the 32-bit range.
pub const MAX_MATCH_CHARS: usize = 16_777_216;

/// What `SkimMatcherV2::default().ignore_case().fuzzy_match(choice, pattern)`
/// returns: `None` where the characters of `pattern` do not occur in `choice`
/// in order (ASCII case ignored), else the score of the best alignment.
pub uninterp spec fn skim_match(choice: Seq<char>, pattern: Seq<char>) -> Option<i64>;

/// Calls `fuzzy_match` of the `FuzzyMatcher` trait on a fresh
/// `SkimMatcherV2` that ignores case. Trusted, not proved: for texts of at
/// most `MAX_MATCH_CHARS` characters the call returns, and its result is a
/// function of the two texts alone, here given the name `skim_match`. The
/// matcher is built and dropped inside the call, so nothing is kept from one
/// call to the next. Nothing is claimed of longer texts, for which the
/// 32-bit sums of the matcher could overflow.
#[verifier::external_body]
fn skim_fuzzy_match(choice: &str, pattern: &str) -> (outcome: Option<i64>)
    requires
        choice@.len() <= MAX_MATCH_CHARS,
        pattern@.len() <= MAX_MATCH_CHARS,
    ensures
        outcome == skim_match(choice@, pattern@),
{
    SkimMatcherV2::default().ignore_case().fuzzy_match(choice, pattern)
}

/// The outcome of matching `candidate` against `query`: the matcher's
/// answer, or no match where either text is too long to be scored.
pub open spec fn match_outcome(candidate: Seq<char>, query: Seq<char>) -> Option<i64> {
    if candidate.len() <= MAX_MATCH_CHARS && query.len() <= MAX_MATCH_CHARS {
        skim_match(candidate, query)
    } else {
        None
    }
}

/// The score that an outcome stands for: the matcher's score, or 0 for no
/// match.
pub open spec fn score_of(outcome: Option<i64>) -> i64 {
    match outcome {
        Some(score) => score,
        None => 0,
    }
}

/// Matches `candidate` against `query`, ignoring case. A text longer than
/// `MAX_MATCH_CHARS` matches nothing.
pub fn fuzzy_match(candidate: &str, query: &str) -> (outcome: Option<i64>)
    ensures
        outcome == match_outcome(candidate@, query@),
{
    if candidate.unicode_len() <= MAX_MATCH_CHARS && query.unicode_len() <= MAX_MATCH_CHARS {
        skim_fuzzy_match(candidate, query)
    } else {
        None
    }
}

/// Turns the matcher's outcome into a score: no match counts as 0.
pub fn match_score(outcome: Option<i64>) -> (score: i64)
    ensures
        score == score_of(outcome),
{
    match outcome {
        Some(score) => score,
        None => 0,
    }
}

} // verus!
