use std::cmp::Ordering;

use word_ranking::ranking::{
    bonus_points, contains_char, high_scoring_words_declarative, high_scoring_words_fn,
    high_scoring_words_imperative, penalty_points, ranked_by_scores,
    ranked_mut_words_with_hidden_flow, ranked_words, ranked_words_reference_only,
    ranked_words_with_comp_signature, score, score_comparator, score_with_bonus,
    score_with_bonus_comparator, word_scores, words_above,
};

fn languages() -> Vec<String> {
    vec![
        "ada".into(),
        "haskell".into(),
        "scala".into(),
        "java".into(),
        "rust".into(),
    ]
}

fn combined(w: &str) -> i32 {
    score(w) + bonus_points(w) - penalty_points(w)
}

#[test]
fn mutates_states() {
    let original_state: Vec<String> = vec![
        "ada".into(),
        "haskell".into(),
        "scala".into(),
        "java".into(),
        "rust".into(),
    ];
    let mut words: Vec<String> = vec![
        "ada".into(),
        "haskell".into(),
        "scala".into(),
        "java".into(),
        "rust".into(),
    ];
    let result = ranked_mut_words_with_hidden_flow(&mut words);
    assert_eq!(result, words);
    assert_ne!(original_state, words);
}

#[test]
fn pass_by_reference_do_not_mutate_state() {
    let words: Vec<String> = vec![
        "ada".into(),
        "haskell".into(),
        "scala".into(),
        "java".into(),
        "rust".into(),
    ];
    let result = ranked_words_reference_only(&words);
    let expected_result: Vec<String> = vec![
        "haskell".into(),
        "rust".into(),
        "scala".into(),
        "java".into(),
        "ada".into(),
    ];
    assert_eq!(result, expected_result);
    assert_ne!(result, words);
}

#[test]
fn pass_comparator_as_argument() {
    let words: Vec<String> = vec![
        "ada".into(),
        "haskell".into(),
        "scala".into(),
        "java".into(),
        "rust".into(),
    ];
    let expected_result: Vec<String> = vec![
        "haskell".into(),
        "rust".into(),
        "scala".into(),
        "java".into(),
        "ada".into(),
    ];
    let result = ranked_words_with_comp_signature(score_comparator, &words);
    assert_eq!(result, expected_result);
}

#[test]
fn new_ranking_algorithm() {
    let words: Vec<String> = vec![
        "ada".into(),
        "haskell".into(),
        "scala".into(),
        "java".into(),
        "rust".into(),
    ];
    let expected_result: Vec<String> = vec![
        "scala".into(),
        "haskell".into(),
        "rust".into(),
        "java".into(),
        "ada".into(),
    ];

    let result = ranked_words_with_comp_signature(score_with_bonus_comparator, &words);
    assert_eq!(result, expected_result);
}

#[test]
fn new_ranking_algorithm_supports_legacy() {
    let words: Vec<String> = vec![
        "ada".into(),
        "haskell".into(),
        "scala".into(),
        "java".into(),
        "rust".into(),
    ];
    let expected_result: Vec<String> = vec![
        "haskell".into(),
        "rust".into(),
        "scala".into(),
        "java".into(),
        "ada".into(),
    ];

    let result = ranked_words_with_comp_signature(score_comparator, &words);
    assert_eq!(result, expected_result);
}

#[test]
fn passing_legacy_scoring_function_as_parameter() {
    let words: Vec<String> = vec![
        "ada".into(),
        "haskell".into(),
        "scala".into(),
        "java".into(),
        "rust".into(),
    ];
    let expected_result: Vec<String> = vec![
        "haskell".into(),
        "rust".into(),
        "scala".into(),
        "java".into(),
        "ada".into(),
    ];

    let result = ranked_words(score, &words);
    assert_eq!(result, expected_result);
}

#[test]
fn passing_new_scoring_function_as_parameter() {
    let words: Vec<String> = vec![
        "ada".into(),
        "haskell".into(),
        "scala".into(),
        "java".into(),
        "rust".into(),
    ];
    let expected_result: Vec<String> = vec![
        "scala".into(),
        "haskell".into(),
        "rust".into(),
        "java".into(),
        "ada".into(),
    ];

    let result = ranked_words(score_with_bonus, &words);
    assert_eq!(result, expected_result);
}

#[test]
fn penalty_score() {
    let words: Vec<String> = vec![
        "ada".into(),
        "haskell".into(),
        "scala".into(),
        "java".into(),
        "rust".into(),
    ];
    let expected_result: Vec<String> = vec![
        "java".into(),
        "ada".into(),
        "scala".into(),
        "haskell".into(),
        "rust".into(),
    ];
    let result = ranked_words(|w| score(w) + bonus_points(w) - penalty_points(w), &words);
    assert_eq!(result, expected_result);
}

#[test]
fn word_score() {
    let words: Vec<String> = vec![
        "ada".into(),
        "haskell".into(),
        "scala".into(),
        "java".into(),
        "rust".into(),
    ];
    let expected_result: Vec<i32> = vec![1, -1, 1, 2, -3];
    let result = word_scores(&words, |w| score(w) + bonus_points(w) - penalty_points(w));
    assert_eq!(result, expected_result);
}

#[test]
fn high_scoring_words() {
    let words: Vec<String> = vec![
        "ada".into(),
        "haskell".into(),
        "scala".into(),
        "java".into(),
        "rust".into(),
    ];
    let expected_result: Vec<String> = vec!["java".into()];
    let result = high_scoring_words_declarative(&words, |w| {
        score(w) + bonus_points(w) - penalty_points(w)
    });
    assert_eq!(result, expected_result);
}

#[test]
fn base_scores_of_languages() {
    assert_eq!(score("ada"), 1);
    assert_eq!(score("haskell"), 6);
    assert_eq!(score("scala"), 3);
    assert_eq!(score("java"), 2);
    assert_eq!(score("rust"), 4);
    assert_eq!(score(""), 0);
    assert_eq!(score("aaa"), 0);
}

#[test]
fn score_counts_characters_not_bytes() {
    assert_eq!(score("éa"), 1);
    assert_eq!(score("ñandú"), 4);
}

#[test]
fn bonus_and_penalty_points() {
    assert_eq!(bonus_points("scala"), 5);
    assert_eq!(bonus_points("java"), 0);
    assert_eq!(penalty_points("rust"), 7);
    assert_eq!(penalty_points("java"), 0);
    assert_eq!(score_with_bonus("scala"), 8);
    assert_eq!(score_with_bonus("rust"), 4);
    assert_eq!(combined("haskell"), -1);
}

#[test]
fn contains_char_finds_any_position() {
    assert!(contains_char("abc", 'a'));
    assert!(contains_char("abc", 'c'));
    assert!(!contains_char("abc", 'd'));
    assert!(!contains_char("", 'a'));
}

#[test]
fn comparators_put_higher_scores_first() {
    assert_eq!(score_comparator("haskell", "ada"), Ordering::Less);
    assert_eq!(score_comparator("ada", "haskell"), Ordering::Greater);
    assert_eq!(score_comparator("java", "jvv"), Ordering::Greater);
    assert_eq!(score_comparator("java", "jv"), Ordering::Equal);
    assert_eq!(score_with_bonus_comparator("scala", "haskell"), Ordering::Less);
    assert_eq!(score_with_bonus_comparator("scala", "cxy"), Ordering::Equal);
}

#[test]
fn ranking_by_combined_score() {
    let words = languages();
    let result = ranked_words(combined, &words);
    assert_eq!(result, vec!["java", "ada", "scala", "haskell", "rust"]);
    assert_eq!(words, languages());
}

#[test]
fn ranking_keeps_input_order_of_ties() {
    let words: Vec<String> = vec!["bb".into(), "x".into(), "cc".into(), "aya".into(), "dd".into()];
    let result = ranked_words(score, &words);
    assert_eq!(result, vec!["bb", "cc", "dd", "x", "aya"]);
    let result = ranked_words_with_comp_signature(score_comparator, &words);
    assert_eq!(result, vec!["bb", "cc", "dd", "x", "aya"]);
}

#[test]
fn ranking_empty_sequence_is_empty() {
    let words: Vec<String> = Vec::new();
    assert!(ranked_words(score, &words).is_empty());
    assert!(ranked_words_reference_only(&words).is_empty());
    assert!(ranked_words_with_comp_signature(score_comparator, &words).is_empty());
    let mut words_mut: Vec<String> = Vec::new();
    assert!(ranked_mut_words_with_hidden_flow(&mut words_mut).is_empty());
}

#[test]
fn ranking_is_a_permutation_of_input() {
    let words = languages();
    let result = ranked_words_reference_only(&words);
    let mut a = words.clone();
    let mut b = result.clone();
    a.sort();
    b.sort();
    assert_eq!(a, b);
    assert_eq!(words, languages());
}

#[test]
fn mutating_ranking_of_ordered_input_leaves_it() {
    let mut words: Vec<String> = vec!["haskell".into(), "rust".into(), "ada".into()];
    let result = ranked_mut_words_with_hidden_flow(&mut words);
    assert_eq!(result, vec!["haskell", "rust", "ada"]);
    assert_eq!(words, result);
}

#[test]
fn ranked_by_given_scores() {
    let words: Vec<String> = vec!["p".into(), "q".into(), "r".into(), "s".into()];
    let result = ranked_by_scores(&words, &[3, -2, 3, 10]);
    assert_eq!(result, vec!["s", "p", "r", "q"]);
}

#[test]
fn filtering_by_threshold() {
    let words = languages();
    let scores = word_scores(&words, combined);
    assert_eq!(words_above(&words, &scores, 1), vec!["java"]);
    assert_eq!(words_above(&words, &scores, 0), vec!["ada", "scala", "java"]);
    assert_eq!(words_above(&words, &scores, -1), vec!["ada", "scala", "java"]);
    assert_eq!(words_above(&words, &scores, -2), vec!["ada", "haskell", "scala", "java"]);
    assert!(words_above(&words, &scores, 2).is_empty());
}

#[test]
fn imperative_filter_matches_declarative() {
    let words = languages();
    assert_eq!(high_scoring_words_imperative(&words, combined), vec!["java"]);
    assert_eq!(
        high_scoring_words_imperative(&words, score),
        vec!["haskell", "scala", "java", "rust"]
    );
    assert_eq!(
        high_scoring_words_declarative(&words, score),
        vec!["haskell", "scala", "java", "rust"]
    );
}

#[test]
fn deferred_threshold() {
    let by_combined = high_scoring_words_fn(languages(), combined);
    assert_eq!(by_combined.higher_than(1), vec!["java"]);
    assert_eq!(by_combined.higher_than(0), vec!["ada", "scala", "java"]);
    assert!(by_combined.higher_than(5).is_empty());
    let by_score = high_scoring_words_fn(languages(), score);
    assert_eq!(by_score.higher_than(3), vec!["haskell", "rust"]);
}
