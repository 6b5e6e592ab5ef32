use word_ranking::sequence::{first_two, inserted_before_last, last_two, moved_first_two_to_the_end};

fn strings(items: &[&str]) -> Vec<String> {
    items.iter().map(|s| s.to_string()).collect()
}

#[test]
fn first_two_assert() {
    let list: Vec<String> = vec!["a".into(), "b".into(), "c".into()];
    let result = first_two(&list);
    assert_eq!(result, vec!["a", "b"])
}

#[test]
fn last_two_assert() {
    let list: Vec<String> = vec!["a".into(), "b".into(), "c".into()];
    let result = last_two(&list);
    assert_eq!(result, vec!["b", "c"])
}

#[test]
fn moved_first_two_to_the_end_assert() {
    let list: Vec<String> = vec!["a".into(), "b".into(), "c".into()];
    let result = moved_first_two_to_the_end(&list);
    assert_eq!(result, vec!["c", "a", "b"])
}

#[test]
fn inserted_before_last_assert() {
    let list: Vec<String> = vec!["a".into(), "b".into()];
    let result = inserted_before_last(&list, "c".into());
    assert_eq!(result, vec!["a", "c", "b"])
}

#[test]
fn first_and_last_two_of_a_pair_are_the_pair() {
    let list = strings(&["x", "y"]);
    assert_eq!(first_two(&list), vec!["x", "y"]);
    assert_eq!(last_two(&list), vec!["x", "y"]);
    assert_eq!(moved_first_two_to_the_end(&list), vec!["x", "y"]);
}

#[test]
fn moving_first_two_keeps_every_word() {
    let list = strings(&["a", "b", "c", "d", "a"]);
    let result = moved_first_two_to_the_end(&list);
    assert_eq!(result, vec!["c", "d", "a", "a", "b"]);
    let mut sorted_in = list.clone();
    let mut sorted_out = result.clone();
    sorted_in.sort();
    sorted_out.sort();
    assert_eq!(sorted_in, sorted_out);
    assert_eq!(list, vec!["a", "b", "c", "d", "a"]);
}

#[test]
fn insert_before_last_of_single_word() {
    let list = strings(&["z"]);
    assert_eq!(inserted_before_last(&list, "y".into()), vec!["y", "z"]);
}

#[test]
fn insert_before_last_of_longer_list() {
    let list = strings(&["a", "b", "c", "d"]);
    let result = inserted_before_last(&list, "e".into());
    assert_eq!(result, vec!["a", "b", "c", "e", "d"]);
    assert_eq!(result.len(), list.len() + 1);
}
