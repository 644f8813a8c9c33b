use markov_chain::markov::MarkovChain;

fn words(items: &[&str]) -> Vec<String> {
    items.iter().map(|w| w.to_string()).collect()
}

fn sample_chain() -> MarkovChain<String> {
    MarkovChain::from_grouped_data(vec![words(&["a", "b", "a"]), words(&["a", "c"])])
}

#[test]
fn rows_are_estimated_from_adjacent_pairs() {
    let chain = sample_chain();
    assert_eq!(chain.tokens(), &words(&["a", "b", "c"])[..]);
    assert_eq!(chain.matrix(), &[0, 1, 1, 1, 0, 0, 1, 1, 1][..]);
    assert_eq!(chain.row_totals(), &[2, 1, 3][..]);
}

#[test]
fn weights_are_the_shares_of_the_successors() {
    let chain = sample_chain();
    let n = chain.len();
    let weight =
        |i: usize, j: usize| chain.matrix()[i * n + j] as f32 / chain.row_totals()[i] as f32;
    assert_eq!([weight(0, 0), weight(0, 1), weight(0, 2)], [0.0, 0.5, 0.5]);
    assert_eq!([weight(1, 0), weight(1, 1), weight(1, 2)], [1.0, 0.0, 0.0]);
    for j in 0..3 {
        assert!((weight(2, j) - 1.0 / 3.0).abs() < 1e-6);
    }
}

#[test]
fn every_row_adds_up_to_one() {
    let chain = MarkovChain::from_grouped_data(vec![
        words(&["the", "cat", "sat", "on", "the", "mat"]),
        words(&["the", "dog", "sat"]),
        words(&["alone"]),
        words(&[]),
    ]);
    let n = chain.len();
    assert_eq!(n, 7);
    assert_eq!(chain.matrix().len(), n * n);
    assert_eq!(chain.row_totals().len(), n);
    for i in 0..n {
        let row = &chain.matrix()[i * n..(i + 1) * n];
        let total = chain.row_totals()[i];
        assert!(total > 0);
        assert_eq!(row.iter().sum::<usize>(), total);
        let sum: f32 = row.iter().map(|w| *w as f32 / total as f32).sum();
        assert!((sum - 1.0).abs() < 0.0001);
    }
}

#[test]
fn a_token_without_successor_has_a_uniform_row() {
    let chain = MarkovChain::from_grouped_data(vec![words(&["x", "y"]), words(&["z"])]);
    assert_eq!(chain.tokens(), &words(&["x", "y", "z"])[..]);
    assert_eq!(&chain.matrix()[0..3], &[0, 1, 0][..]);
    assert_eq!(&chain.matrix()[3..6], &[1, 1, 1][..]);
    assert_eq!(&chain.matrix()[6..9], &[1, 1, 1][..]);
    assert_eq!(chain.row_totals(), &[1, 3, 3][..]);
}

#[test]
fn repeated_successors_accumulate() {
    let chain = MarkovChain::from_continuous_data(words(&["a", "b", "a", "b", "a", "c"]));
    assert_eq!(chain.tokens(), &words(&["a", "b", "c"])[..]);
    assert_eq!(&chain.matrix()[0..3], &[0, 2, 1][..]);
    assert_eq!(&chain.matrix()[3..6], &[2, 0, 0][..]);
    assert_eq!(chain.row_totals(), &[3, 2, 3][..]);
}

#[test]
fn adjacency_stops_at_group_boundaries() {
    let chain = MarkovChain::from_grouped_data(vec![words(&["a"]), words(&["b"])]);
    assert_eq!(chain.matrix(), &[1, 1, 1, 1][..]);
    assert_eq!(chain.row_totals(), &[2, 2][..]);
    let joined = MarkovChain::from_continuous_data(words(&["a", "b"]));
    assert_eq!(joined.matrix(), &[0, 1, 1, 1][..]);
    assert_eq!(joined.row_totals(), &[1, 2][..]);
}

#[test]
fn no_input_gives_an_empty_table() {
    let chain: MarkovChain<String> = MarkovChain::from_grouped_data(vec![]);
    assert_eq!(chain.len(), 0);
    assert!(chain.tokens().is_empty());
    assert!(chain.matrix().is_empty());
    assert!(chain.row_totals().is_empty());
    assert!(chain.first_tokens().is_empty());
    let blank: MarkovChain<u8> = MarkovChain::from_continuous_data(vec![]);
    assert_eq!(blank.len(), 0);
    assert!(blank.matrix().is_empty());
}

#[test]
fn continuous_data_is_one_group() {
    let bytes = b"abracadabra".to_vec();
    let one = MarkovChain::from_continuous_data(bytes.clone());
    let grouped = MarkovChain::from_grouped_data(vec![bytes]);
    assert_eq!(one.tokens(), grouped.tokens());
    assert_eq!(one.matrix(), grouped.matrix());
    assert_eq!(one.row_totals(), grouped.row_totals());
    assert_eq!(one.first_tokens(), grouped.first_tokens());
    assert_eq!(one.tokens(), &b"abrcd"[..]);
    assert_eq!(&one.matrix()[0..5], &[0, 2, 0, 1, 1][..]);
    assert_eq!(one.row_totals()[0], 4);
}

#[test]
fn building_twice_gives_the_same_chain() {
    let data = vec![words(&["to", "be", "or", "not", "to", "be"]), words(&["be", "it"])];
    let first = MarkovChain::from_grouped_data(data.clone());
    let second = MarkovChain::from_grouped_data(data);
    assert_eq!(first.tokens(), second.tokens());
    assert_eq!(first.matrix(), second.matrix());
    assert_eq!(first.row_totals(), second.row_totals());
    assert_eq!(first.first_tokens(), second.first_tokens());
}

#[test]
fn index_and_token_are_inverse() {
    let data = vec![words(&["to", "be", "or", "not", "to", "be"]), words(&["be", "it"])];
    let chain = MarkovChain::from_grouped_data(data.clone());
    assert_eq!(chain.len(), 5);
    for group in &data {
        for token in group {
            let index = chain.index_of(token).unwrap();
            assert!(index < chain.len());
            assert_eq!(chain.token_at(index), Some(token));
        }
    }
    for index in 0..chain.len() {
        let token = chain.token_at(index).unwrap();
        assert_eq!(chain.index_of(token), Some(index));
    }
    assert_eq!(chain.index_of(&"to".to_string()), Some(0));
    assert_eq!(chain.index_of(&"it".to_string()), Some(4));
    assert_eq!(chain.index_of(&"never".to_string()), None);
    assert_eq!(chain.token_at(5), None);
}

#[test]
fn first_tokens_begin_a_group() {
    let chain = MarkovChain::from_grouped_data(vec![
        words(&["b", "a"]),
        words(&[]),
        words(&["c", "b"]),
        words(&["b"]),
    ]);
    assert_eq!(chain.tokens(), &words(&["b", "a", "c"])[..]);
    assert_eq!(chain.first_tokens(), &[0, 2][..]);
}

#[test]
fn new_keeps_the_table_and_the_distinct_tokens() {
    let chain = MarkovChain::new(&words(&["x", "y", "x", "z", "y"]), vec![7; 9], vec![21; 3]);
    assert_eq!(chain.tokens(), &words(&["x", "y", "z"])[..]);
    assert_eq!(chain.matrix(), &[7; 9][..]);
    assert_eq!(chain.row_totals(), &[21; 3][..]);
    assert!(chain.first_tokens().is_empty());
}
