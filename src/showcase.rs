//! The scoring policy of the demonstration program: a bonus for `'r'` and a penalty for
//! `'j'`, kept apart from the library's own bonus for `'c'` and penalty for `'s'`.
use vstd::prelude::*;

use crate::ranking::{
    accepts_words, base_keys, base_scores, contains_char, is_ranked, keys_of, ranked_by_scores,
    ranked_words, scored_by, words_fit,
};

verus! {

/// Five points for a word that contains `'r'`.
pub open spec fn r_bonus_spec(w: Seq<char>) -> int {
    if w.contains('r') {
        5
    } else {
        0
    }
}

/// Seven points off for a word that contains `'j'`.
pub open spec fn j_penalty_spec(w: Seq<char>) -> int {
    if w.contains('j') {
        7
    } else {
        0
    }
}

/// Bonus of five points for a word that contains `'r'`, else nothing.
pub fn bonus(word: &str) -> (r: i32)
    ensures
        r == r_bonus_spec(word@),
{
    if contains_char(word, 'r') {
        5
    } else {
        0
    }
}

/// Penalty of seven points for a word that contains `'j'`, else nothing.
pub fn penalty(word: &str) -> (r: i32)
    ensures
        r == j_penalty_spec(word@),
{
    if contains_char(word, 'j') {
        7
    } else {
        0
    }
}

/// Ranks a copy of `words` by descending base score, equal scores in input order.
pub fn rank_words(words: &[String]) -> (r: Vec<String>)
    requires
        words_fit(words@, 0),
    ensures
        is_ranked(words@, base_keys(words@), r@),
        r@.to_multiset() == words@.to_multiset(),
{
    let scores = base_scores(words);
    ranked_by_scores(words, scores.as_slice())
}

/// Ranks a copy of `words` by descending score under `word_score`, equal scores in input order.
pub fn rank_words_eirik<F: Fn(&str) -> i32>(words: &[String], word_score: F) -> (r: Vec<String>)
    requires
        accepts_words(word_score, words@),
    ensures
        exists|scores: Seq<i32>|
            scored_by(word_score, words@, scores) && is_ranked(words@, keys_of(scores), r@),
        r@.to_multiset() == words@.to_multiset(),
{
    ranked_words(word_score, words)
}

} // verus!
