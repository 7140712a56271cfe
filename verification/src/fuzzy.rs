//! Fuzzy scores of paths against a query.
//!
//! The scores are those of the skim matcher of the `fuzzy_matcher` crate:
//! a path scores if the query's characters occur in it in order, and the
//! better they line up the higher. What the matcher returns is named by
//! `skim_score`; this module only says when it is asked.

use fuzzy_matcher::skim::SkimMatcherV2;
use fuzzy_matcher::FuzzyMatcher;
use vstd::prelude::*;
use vstd::string::*;
use crate::entry::VisitEntry;

verus! {

/// The longest text, in characters, that is handed to the matcher. The
/// matcher adds its scores up in 32 bits; within this limit they fit.
pub const FUZZY_LIMIT: usize = 65536;

/// What the skim matcher, with its default settings, returns for a choice
/// and a pattern: the score of the best alignment, or nothing where the
/// pattern's characters do not occur in the choice in order.
pub uninterp spec fn skim_score(choice: Seq<char>, pattern: Seq<char>) -> Option<i64>;

/// The fuzzy score of a path against a query: that of the skim matcher, and
/// none where the path or the query is longer than `FUZZY_LIMIT`.
pub open spec fn fuzzy_score(path: Seq<char>, query: Seq<char>) -> Option<i64> {
    if path.len() <= FUZZY_LIMIT && query.len() <= FUZZY_LIMIT {
        skim_score(path, query)
    } else {
        None
    }
}

/// `SkimMatcherV2::fuzzy_match` on a matcher with the default settings. The
/// result is the one named by `skim_score`.
#[verifier::external_body]
fn skim_match(choice: &str, pattern: &str) -> (r: Option<i64>)
    requires
        choice@.len() <= FUZZY_LIMIT,
        pattern@.len() <= FUZZY_LIMIT,
    ensures
        r == skim_score(choice@, pattern@),
{
    SkimMatcherV2::default().fuzzy_match(choice, pattern)
}

/// The fuzzy score of a path against a query.
pub fn fuzzy_match(path: &str, query: &str) -> (r: Option<i64>)
    ensures
        r == fuzzy_score(path@, query@),
{
    if path.unicode_len() <= FUZZY_LIMIT && query.unicode_len() <= FUZZY_LIMIT {
        skim_match(path, query)
    } else {
        None
    }
}

/// The fuzzy score of each row's path against a query.
pub fn fuzzy_scores(rows: &Vec<VisitEntry>, query: &str) -> (scores: Vec<Option<i64>>)
    ensures
        scores@.len() == rows@.len(),
        forall|i: int|
            0 <= i < rows@.len() ==> #[trigger] scores@[i] == fuzzy_score(rows@[i]@.path, query@),
{
    let mut scores: Vec<Option<i64>> = Vec::new();
    let mut i: usize = 0;
    while i < rows.len()
        invariant
            i <= rows.len(),
            scores@.len() == i,
            forall|t: int|
                0 <= t < i ==> #[trigger] scores@[t] == fuzzy_score(rows@[t]@.path, query@),
        decreases rows.len() - i,
    {
        scores.push(fuzzy_match(rows[i].path.as_str(), query));
        i += 1;
    }
    scores
}

} // verus!
