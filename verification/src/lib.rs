//! A first-order Markov chain over a vocabulary of tokens, with exact
//! rational transition weights, bounded random walks and a tokenizer for
//! plain text.

pub mod bounds;
pub mod display;
pub mod error;
pub mod input;
pub mod laws;
pub mod markov;
pub mod model;
pub mod random;
pub mod range;
pub mod text;
pub mod token;
pub mod vocabulary;
