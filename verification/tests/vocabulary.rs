use itertools::Itertools;
use markov_chain::token::Token;
use markov_chain::vocabulary::{
    collect_first_tokens, collect_vocabulary, distinct_tokens, find_next_tokens, position,
};

fn words(items: &[&str]) -> Vec<String> {
    items.iter().map(|w| w.to_string()).collect()
}

#[test]
fn distinct_tokens_keep_their_first_place() {
    let tokens = words(&["b", "a", "b", "c", "a", "b"]);
    assert_eq!(distinct_tokens(&tokens), words(&["b", "a", "c"]));
    assert_eq!(distinct_tokens::<String>(&[]), Vec::<String>::new());
}

#[test]
fn distinct_tokens_agree_with_unique() {
    let inputs: Vec<Vec<u8>> = vec![
        vec![],
        vec![5],
        vec![1, 1, 1],
        vec![3, 1, 3, 2, 1, 2, 9, 3],
        b"the quick brown fox jumps over the lazy dog".to_vec(),
    ];
    for input in inputs {
        let expected: Vec<u8> = input.iter().unique().cloned().collect();
        assert_eq!(distinct_tokens(&input), expected);
    }
}

#[test]
fn the_vocabulary_goes_across_groups() {
    let data = vec![words(&["b", "a"]), words(&[]), words(&["a", "c", "b"])];
    assert_eq!(collect_vocabulary(&data), words(&["b", "a", "c"]));
    let expected: Vec<String> = data.iter().flatten().unique().cloned().collect();
    assert_eq!(collect_vocabulary(&data), expected);
}

#[test]
fn position_is_the_first_match() {
    let tokens = words(&["x", "y", "x"]);
    assert_eq!(position(&tokens, &"x".to_string()), Some(0));
    assert_eq!(position(&tokens, &"y".to_string()), Some(1));
    assert_eq!(position(&tokens, &"z".to_string()), None);
}

#[test]
fn next_tokens_follow_inside_a_group() {
    let data =
        vec![words(&["a", "b", "a"]), words(&["a"]), words(&["a", "c"]), words(&["b", "a", "a"])];
    let a = "a".to_string();
    let b = "b".to_string();
    let c = "c".to_string();
    assert_eq!(find_next_tokens(&a, &data), vec![&b, &c, &a]);
    assert_eq!(find_next_tokens(&b, &data), vec![&a, &a]);
    assert_eq!(find_next_tokens(&c, &data), Vec::<&String>::new());
    assert_eq!(find_next_tokens(&"d".to_string(), &data), Vec::<&String>::new());
}

#[test]
fn first_tokens_are_indices_into_the_vocabulary() {
    let data = vec![words(&["b", "a"]), words(&["a"]), words(&["b"]), words(&["c", "a"])];
    let vocabulary = collect_vocabulary(&data);
    assert_eq!(collect_first_tokens(&data, &vocabulary), vec![0, 1, 2]);
}

#[test]
fn tokens_compare_and_copy_by_value() {
    assert!("a".to_string().same_as(&"a".to_string()));
    assert!(!"a".to_string().same_as(&"b".to_string()));
    assert_eq!("word".to_string().duplicate(), "word");
    assert!(7u8.same_as(&7));
    assert!(!7u8.same_as(&8));
    assert_eq!(7u8.duplicate(), 7);
    assert!('x'.same_as(&'x'));
    assert!(!'x'.same_as(&'y'));
    assert_eq!('x'.duplicate(), 'x');
}
