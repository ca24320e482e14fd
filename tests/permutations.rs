use space_inspector::permutations::permutations;

fn sorted_unique(mut v: Vec<String>) -> Vec<String> {
    v.sort();
    v.dedup();
    v
}

#[test]
fn single_and_empty_words() {
    assert_eq!(permutations(String::new()), vec![String::new()]);
    assert_eq!(permutations("a".to_string()), vec!["a".to_string()]);
}

#[test]
fn permutes_two_and_three_letters() {
    assert_eq!(permutations("ab".to_string()), vec!["ab", "ba"]);
    assert_eq!(
        permutations("abc".to_string()),
        vec!["abc", "bac", "bca", "acb", "cab", "cba"]
    );
}

#[test]
fn four_letters_repeat_but_cover_all() {
    let all = permutations("abcd".to_string());
    assert_eq!(all.len(), 6 * 7);
    assert_eq!(sorted_unique(all).len(), 24);
}
