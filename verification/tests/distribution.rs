use markov_chain::markov::MarkovChain;
use markov_chain::token::Token;
use nalgebra::{DMatrix, MatrixXx1};

fn probabilities<T: Token>(chain: &MarkovChain<T>) -> Vec<f32> {
    let n = chain.len();
    let totals = chain.row_totals();
    chain
        .matrix()
        .iter()
        .enumerate()
        .map(|(cell, weight)| *weight as f32 / totals[cell / n] as f32)
        .collect()
}

fn steady_state<T: Token>(chain: &MarkovChain<T>) -> Vec<f32> {
    let n = chain.len();
    let mat = &DMatrix::from_row_slice(n, n, &probabilities(chain)).transpose();
    let mut eigenvector = MatrixXx1::from_element(mat.nrows(), 1.0);
    let tolerance = 1e-8;

    for _ in 0..30 {
        let new_eigenvector = mat * eigenvector.clone();
        let diff = (new_eigenvector.clone() - eigenvector.clone()).norm();
        if diff < tolerance {
            break;
        }
        eigenvector = new_eigenvector;
    }

    let norm = eigenvector.sum();
    (eigenvector / norm).data.as_vec().to_vec()
}

fn words(items: &[&str]) -> Vec<String> {
    items.iter().map(|w| w.to_string()).collect()
}

#[test]
fn the_long_run_shares_add_up_to_one() {
    let chains = vec![
        MarkovChain::from_grouped_data(vec![words(&["a", "b", "a"]), words(&["a", "c"])]),
        MarkovChain::from_grouped_data(vec![
            words(&["the", "cat", "sat", "on", "the", "mat"]),
            words(&["the", "dog", "sat"]),
        ]),
        MarkovChain::from_continuous_data(words(&["x"])),
        MarkovChain::new(&words(&["p", "q"]), vec![0, 1, 1, 0], vec![1, 1]),
    ];
    for chain in chains {
        let shares = steady_state(&chain);
        assert_eq!(shares.len(), chain.len());
        let sum: f32 = shares.iter().sum();
        assert!((sum - 1.0).abs() < 1e-4);
        assert!(shares.iter().all(|share| *share >= 0.0));
    }
}

#[test]
fn the_long_run_shares_of_a_small_chain() {
    let chain = MarkovChain::from_continuous_data(words(&["a", "b", "b", "a", "b"]));
    assert_eq!(chain.matrix(), &[0, 2, 1, 1][..]);
    assert_eq!(chain.row_totals(), &[2, 2][..]);
    let shares = steady_state(&chain);
    assert!((shares[0] - 1.0 / 3.0).abs() < 1e-4);
    assert!((shares[1] - 2.0 / 3.0).abs() < 1e-4);
}

#[test]
fn the_weights_of_a_row_are_fractions_of_its_total() {
    let chain = MarkovChain::from_grouped_data(vec![words(&["a", "b", "a"]), words(&["a", "c"])]);
    let expected = [0.0, 0.5, 0.5, 1.0, 0.0, 0.0, 1.0 / 3.0, 1.0 / 3.0, 1.0 / 3.0];
    let got = probabilities(&chain);
    assert_eq!(got.len(), 9);
    for (weight, wanted) in got.iter().zip(expected.iter()) {
        assert!((weight - wanted).abs() < 1e-6);
    }
}
