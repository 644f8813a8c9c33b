use markov_chain::error::GenerationError;
use markov_chain::markov::MarkovChain;
use markov_chain::range::ClosedRange;

fn words(items: &[&str]) -> Vec<String> {
    items.iter().map(|w| w.to_string()).collect()
}

fn sample_chain() -> MarkovChain<String> {
    MarkovChain::from_grouped_data(vec![words(&["a", "b", "a"]), words(&["a", "c"])])
}

fn weight(chain: &MarkovChain<String>, from: &String, to: &String) -> usize {
    let i = chain.index_of(from).unwrap();
    let j = chain.index_of(to).unwrap();
    chain.matrix()[i * chain.len() + j]
}

#[test]
fn one_step_from_a_reaches_b_or_c() {
    let chain = sample_chain();
    let mut seen_b = false;
    let mut seen_c = false;
    for _ in 0..400 {
        let path = chain.walk_from(&"a".to_string(), 1).unwrap();
        assert_eq!(path.len(), 2);
        assert_eq!(path[0], "a");
        assert!(path[1] == "b" || path[1] == "c");
        seen_b |= path[1] == "b";
        seen_c |= path[1] == "c";
    }
    assert!(seen_b && seen_c);
}

#[test]
fn one_sentence_of_one_step_has_two_tokens() {
    let chain = sample_chain();
    for _ in 0..100 {
        let sentences = chain.generate(1, 1..=1).unwrap();
        assert_eq!(sentences.len(), 1);
        assert_eq!(sentences[0].len(), 2);
        assert!(weight(&chain, &sentences[0][0], &sentences[0][1]) > 0);
    }
}

#[test]
fn the_only_step_from_b_leads_to_a() {
    let chain = sample_chain();
    for _ in 0..100 {
        assert_eq!(chain.walk_from(&"b".to_string(), 1), Some(words(&["b", "a"])));
    }
}

#[test]
fn no_steps_give_the_seed_alone() {
    let chain = sample_chain();
    assert_eq!(chain.walk_from(&"c".to_string(), 0), Some(words(&["c"])));
    let sentences = chain.generate(5, 0..=0).unwrap();
    assert_eq!(sentences.len(), 5);
    for sentence in sentences {
        assert_eq!(sentence.len(), 1);
        assert!(chain.index_of(&sentence[0]).is_some());
    }
}

#[test]
fn there_is_no_walk_from_an_unknown_token() {
    let chain = sample_chain();
    assert_eq!(chain.walk_from(&"z".to_string(), 3), None);
}

#[test]
fn lengths_stay_within_the_bounds() {
    let chain = sample_chain();
    let mut lengths = [false; 7];
    for _ in 0..50 {
        let sentences = chain.generate(20, 2..=5).unwrap();
        assert_eq!(sentences.len(), 20);
        for sentence in sentences {
            assert!(3 <= sentence.len() && sentence.len() <= 6);
            lengths[sentence.len()] = true;
            for pair in sentence.windows(2) {
                assert!(weight(&chain, &pair[0], &pair[1]) > 0);
            }
        }
    }
    assert_eq!(lengths, [false, false, false, true, true, true, true]);
}

#[test]
fn half_open_bounds_leave_the_end_out() {
    let chain = sample_chain();
    for _ in 0..50 {
        for sentence in chain.generate(20, 1..3).unwrap() {
            assert!(sentence.len() == 2 || sentence.len() == 3);
        }
    }
}

#[test]
fn an_empty_chain_refuses_to_generate() {
    let chain: MarkovChain<String> = MarkovChain::from_grouped_data(vec![]);
    assert_eq!(chain.generate(3, 1..=4), Err(GenerationError::EmptyVocabulary));
    assert_eq!(chain.generate(0, 1..=4), Err(GenerationError::EmptyVocabulary));
    assert_eq!(chain.generate_sentences(3, 1..=4), Err(GenerationError::EmptyVocabulary));
    let bytes: MarkovChain<u8> = MarkovChain::from_continuous_data(vec![]);
    assert_eq!(bytes.generate(1, 1..=1), Err(GenerationError::EmptyVocabulary));
}

#[test]
fn a_chain_without_first_tokens_refuses_sentences() {
    let chain = MarkovChain::new(&words(&["x", "y"]), vec![0, 1, 1, 0], vec![1, 1]);
    assert_eq!(chain.generate_sentences(2, 1..=3), Err(GenerationError::NoSeedTokens));
    let free = chain.generate(2, 1..=3).unwrap();
    assert_eq!(free.len(), 2);
}

#[test]
fn no_sentences_are_asked_for() {
    let chain = sample_chain();
    assert_eq!(chain.generate(0, 1..=4), Ok(vec![]));
    assert_eq!(chain.generate_sentences(0, 1..=4), Ok(vec![]));
}

#[test]
fn sentences_start_at_first_tokens() {
    let chain = MarkovChain::from_grouped_data(vec![
        words(&["once", "upon", "a", "time"]),
        words(&["there", "was", "a", "time"]),
    ]);
    assert_eq!(chain.first_tokens(), &[0, 4][..]);
    let mut seen_once = false;
    let mut seen_there = false;
    for _ in 0..50 {
        for sentence in chain.generate_sentences(10, 1..=3).unwrap() {
            assert!(sentence[0] == "once" || sentence[0] == "there");
            assert!(2 <= sentence.len() && sentence.len() <= 4);
            seen_once |= sentence[0] == "once";
            seen_there |= sentence[0] == "there";
        }
    }
    assert!(seen_once && seen_there);
}

#[test]
fn a_walk_stops_where_no_step_leaves() {
    let chain = MarkovChain::new(&words(&["x", "y"]), vec![0, 1, 0, 0], vec![1, 1]);
    for _ in 0..50 {
        assert_eq!(chain.walk_from(&"x".to_string(), 5), Some(words(&["x", "y"])));
        assert_eq!(chain.walk_from(&"y".to_string(), 5), Some(words(&["y"])));
    }
}

#[test]
fn steps_of_weight_zero_are_never_taken() {
    let chain = MarkovChain::new(&[1u8, 2, 3], vec![0, 0, 9, 5, 0, 0, 0, 1, 0], vec![9, 5, 1]);
    for _ in 0..100 {
        assert_eq!(chain.walk_from(&1, 6), Some(vec![1, 3, 2, 1, 3, 2, 1]));
    }
}

#[test]
fn byte_chains_generate_bytes_of_the_corpus() {
    let corpus = b"hello world".to_vec();
    let chain = MarkovChain::from_continuous_data(corpus.clone());
    for sentence in chain.generate(30, 4..=4).unwrap() {
        assert_eq!(sentence.len(), 5);
        for byte in sentence {
            assert!(corpus.contains(&byte));
        }
    }
}

#[test]
fn closed_ranges_become_half_open() {
    assert_eq!((2..=5usize).as_open_range(), 2..6);
    assert_eq!((7..=7usize).as_open_range(), 7..8);
    assert_eq!((0..=0usize).as_open_range(), 0..1);
    assert_eq!((3..9usize).as_open_range(), 3..9);
    assert_eq!((4..4usize).as_open_range(), 4..4);
}

#[test]
fn errors_describe_themselves() {
    assert_eq!(GenerationError::EmptyVocabulary.message(), "No tokens found");
    assert_eq!(GenerationError::NoSeedTokens.message(), "No first tokens found");
}
