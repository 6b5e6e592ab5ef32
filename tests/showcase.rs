use word_ranking::ranking::score;
use word_ranking::showcase::{bonus, penalty, rank_words, rank_words_eirik};

fn languages() -> Vec<String> {
    vec![
        "ada".into(),
        "haskell".into(),
        "scala".into(),
        "java".into(),
        "rust".into(),
    ]
}

#[test]
fn showcase_bonus_and_penalty() {
    assert_eq!(bonus("rust"), 5);
    assert_eq!(bonus("scala"), 0);
    assert_eq!(penalty("java"), 7);
    assert_eq!(penalty("rust"), 0);
}

#[test]
fn showcase_rank_by_base_score() {
    let words = languages();
    assert_eq!(rank_words(&words), vec!["haskell", "rust", "scala", "java", "ada"]);
    assert_eq!(words, languages());
}

#[test]
fn showcase_rank_by_own_policy() {
    let words = languages();
    let result = rank_words_eirik(&words, |w| score(w) + bonus(w) - penalty(w));
    assert_eq!(result, vec!["rust", "haskell", "scala", "ada", "java"]);
}
