use ptg::consensus::{sorted_set, split_runs, token_overlap, tokenize};

#[test]
fn tokens_are_lowercased_distinct_and_sorted() {
    assert_eq!(tokenize("Hello, World! hello"), vec!["hello".to_string(), "world".to_string()]);
    assert!(tokenize("  ,;  ").is_empty());
    assert_eq!(tokenize("Ünïcode_mix 42x"), vec!["42x".to_string(), "mix".to_string(), "ünïcode".to_string()]);
}

#[test]
fn overlap_of_identical_token_sets() {
    assert_eq!(token_overlap("hello world", "Hello, World!"), (2, 2));
}

#[test]
fn overlap_of_partially_shared_tokens() {
    assert_eq!(token_overlap("a b c", "b c d"), (2, 4));
}

#[test]
fn overlap_of_disjoint_tokens() {
    assert_eq!(token_overlap("alpha beta", "gamma delta"), (0, 4));
}

#[test]
fn overlap_of_empty_texts() {
    assert_eq!(token_overlap("", ""), (0, 0));
    assert_eq!(token_overlap("words", ""), (0, 1));
}

#[test]
fn runs_split_at_unflagged_characters() {
    let chars: Vec<char> = "ab, c".chars().collect();
    let flags = vec![true, true, false, false, true];
    assert_eq!(split_runs(&chars, &flags), vec!["ab".to_string(), "c".to_string()]);
    let none: Vec<char> = Vec::new();
    assert!(split_runs(&none, &Vec::new()).is_empty());
    assert_eq!(split_runs(&chars, &vec![false, true, true, false, false]), vec!["b,".to_string()]);
}

#[test]
fn sorted_set_drops_repeats_and_sorts() {
    let ws = vec!["b".to_string(), "a".to_string(), "b".to_string(), "ab".to_string()];
    assert_eq!(sorted_set(&ws), vec!["a".to_string(), "ab".to_string(), "b".to_string()]);
    assert!(sorted_set(&Vec::new()).is_empty());
}
