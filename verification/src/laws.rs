//! What holds of every chain, whatever corpus it was estimated from and
//! whatever was drawn while it generated.

use crate::markov::MarkovChain;
use crate::model::{
    concat, followers, is_first_place, lemma_concat_contains, lemma_concat_element,
    lemma_distinct_contains, lemma_distinct_no_duplicates, lemma_distinct_order,
    lemma_followers_elements, lemma_followers_none, lemma_index_of_unique, lemma_row_bounds,
    lemma_tally_total, lemma_total_constant, occurrences, total, transitions, vocabulary_of,
};
use crate::token::Token;
use vstd::arithmetic::div_mod::{
    lemma_fundamental_div_mod, lemma_mod_bound, lemma_multiply_divide_lt,
};
use vstd::prelude::*;

verus! {

/// In a table with one row and one column per token, the entry `j` of row
/// `i` is the cell `i * n + j`, and every row has `n` entries.
pub proof fn lemma_row_entry<T: Token>(chain: MarkovChain<T>, i: int, j: int)
    requires
        chain.weights().len() == chain.vocabulary().len() * chain.vocabulary().len(),
        0 <= i < chain.vocabulary().len(),
        0 <= j < chain.vocabulary().len(),
    ensures
        chain.row(i).len() == chain.vocabulary().len(),
        0 <= i * chain.vocabulary().len() + j < chain.weights().len(),
        chain.row(i)[j] == chain.weights()[i * chain.vocabulary().len() + j],
{
    let n = chain.vocabulary().len() as int;
    lemma_row_bounds(n, i, n);
}

/// The rows of an estimated chain are probability distributions: in every
/// row the numerators of the weights add up to their common denominator,
/// which is above zero, so the weights of the row add up to exactly one.
pub proof fn lemma_estimated_rows_are_distributions<T: Token>(
    chain: MarkovChain<T>,
    groups: Seq<Seq<T::V>>,
)
    requires
        chain.is_built_from(groups),
    ensures
        chain.is_row_stochastic(),
{
    let vocab = chain.vocabulary();
    let n = vocab.len();
    lemma_distinct_no_duplicates(concat(groups));
    assert forall|i: int| 0 <= i < n implies {
        &&& chain.totals()[i] > 0
        &&& total(#[trigger] chain.row(i)) == chain.totals()[i]
    } by {
        let row = chain.row(i);
        let next = followers(groups, vocab[i]);
        lemma_row_entry(chain, i, 0);
        if next.len() == 0 {
            assert forall|j: int| 0 <= j < row.len() implies row[j] == 1 by {
                assert(chain.row(i)[j] == 1);
            }
            lemma_total_constant(row, 1);
        } else {
            lemma_followers_elements(groups, vocab[i]);
            assert forall|k: int| 0 <= k < next.len() implies vocab.contains(
                #[trigger] next[k],
            ) by {
                lemma_distinct_contains(concat(groups), next[k]);
            }
            assert forall|j: int| 0 <= j < n implies #[trigger] row[j] == occurrences(
                next,
                vocab[j],
            ) by {
                assert(chain.row(i)[j] == transitions(groups, vocab[i], vocab[j]));
            }
            lemma_tally_total(next, vocab, row);
        }
    }
}

/// An estimated chain is well formed: generation can be asked of it.
pub proof fn lemma_estimated_chain_is_well_formed<T: Token>(
    chain: MarkovChain<T>,
    groups: Seq<Seq<T::V>>,
)
    requires
        chain.is_built_from(groups),
    ensures
        chain.wf(),
{
    lemma_distinct_no_duplicates(concat(groups));
    lemma_estimated_rows_are_distributions(chain, groups);
}

/// A token that never stands to the left of another token in its group has
/// a uniform row: every weight of the row is one over the number of tokens.
pub proof fn lemma_dangling_row_is_uniform<T: Token>(
    chain: MarkovChain<T>,
    groups: Seq<Seq<T::V>>,
    i: int,
)
    requires
        chain.is_built_from(groups),
        0 <= i < chain.vocabulary().len(),
        forall|g: int, p: int|
            0 <= g < groups.len() && 0 <= p < groups[g].len() - 1 ==> #[trigger] groups[g][p]
                != chain.vocabulary()[i],
    ensures
        chain.totals()[i] == chain.vocabulary().len(),
        chain.row(i).len() == chain.vocabulary().len(),
        forall|j: int| 0 <= j < chain.vocabulary().len() ==> #[trigger] chain.row(i)[j] == 1,
{
    lemma_followers_none(groups, chain.vocabulary()[i]);
    lemma_row_entry(chain, i, 0);
    assert forall|j: int| 0 <= j < chain.vocabulary().len() implies #[trigger] chain.row(i)[j]
        == 1 by {
        assert(chain.row(i)[j] == transitions(
            groups,
            chain.vocabulary()[i],
            chain.vocabulary()[j],
        ));
    }
}

/// Every token of the corpus has an index, and looking up the token at that
/// index gives the token back.
pub proof fn lemma_corpus_token_is_indexed<T: Token>(
    chain: MarkovChain<T>,
    groups: Seq<Seq<T::V>>,
    g: int,
    p: int,
)
    requires
        chain.is_built_from(groups),
        0 <= g < groups.len(),
        0 <= p < groups[g].len(),
    ensures
        0 <= chain.index(groups[g][p]) < chain.vocabulary().len(),
        chain.vocabulary()[chain.index(groups[g][p])] == groups[g][p],
{
    let token = groups[g][p];
    assert(groups[g].contains(token));
    lemma_concat_contains(groups, g, token);
    lemma_distinct_contains(concat(groups), token);
}

/// Every token of the vocabulary occurs in the corpus.
pub proof fn lemma_indexed_token_is_in_corpus<T: Token>(
    chain: MarkovChain<T>,
    groups: Seq<Seq<T::V>>,
    i: int,
)
    requires
        chain.is_built_from(groups),
        0 <= i < chain.vocabulary().len(),
    ensures
        exists|g: int|
            0 <= g < groups.len() && (#[trigger] groups[g]).contains(chain.vocabulary()[i]),
{
    let token = chain.vocabulary()[i];
    assert(chain.vocabulary().contains(token));
    lemma_distinct_contains(concat(groups), token);
    lemma_concat_element(groups, token);
}

/// The vocabulary is in first-occurrence order: of two tokens the one with
/// the lower index occurs first in the corpus read group after group.
pub proof fn lemma_vocabulary_is_in_first_occurrence_order<T: Token>(
    chain: MarkovChain<T>,
    groups: Seq<Seq<T::V>>,
    i: int,
    j: int,
)
    requires
        chain.is_built_from(groups),
        0 <= i < j < chain.vocabulary().len(),
    ensures
        exists|p: int, q: int|
            {
                &&& p < q
                &&& is_first_place(concat(groups), chain.vocabulary()[i], p)
                &&& is_first_place(concat(groups), chain.vocabulary()[j], q)
            },
{
    lemma_distinct_order(concat(groups), i, j);
}

/// The indices of a well-formed chain are dense and name one token each:
/// the token at index `i` is found at `i` and nowhere else.
pub proof fn lemma_index_is_a_bijection<T: Token>(chain: MarkovChain<T>, i: int)
    requires
        chain.wf(),
        0 <= i < chain.vocabulary().len(),
    ensures
        chain.index(chain.vocabulary()[i]) == i,
        forall|j: int|
            0 <= j < chain.vocabulary().len() && j != i ==> chain.vocabulary()[j]
                != chain.vocabulary()[i],
{
    lemma_index_of_unique(chain.vocabulary(), i);
}

/// The length of a generated sentence: it has at least one token and at
/// most one more than the greatest number of steps allowed, and it has
/// fewer steps than the least number allowed only where it ends in a token
/// that no step leaves.
pub proof fn lemma_sentence_length<T: Token>(
    chain: MarkovChain<T>,
    path: Seq<T::V>,
    lower: int,
    upper: int,
)
    requires
        chain.is_sentence(path, lower, upper),
    ensures
        1 <= path.len() <= upper + 1,
        path.len() < lower + 1 ==> chain.is_dead_end(path.last()),
{
    let steps = choose|steps: int| lower <= steps <= upper && #[trigger] chain.is_walk(path, steps);
    assert(chain.is_walk(path, steps));
}

/// Counting the token it starts at, a generated sentence that has not taken
/// the greatest number of steps allowed has a number of tokens within the
/// bounds, both ends included, or fewer tokens only where it ends in a token
/// that no step leaves.
pub proof fn lemma_token_count_within_bounds<T: Token>(
    chain: MarkovChain<T>,
    path: Seq<T::V>,
    lower: int,
    upper: int,
)
    requires
        chain.is_sentence(path, lower, upper),
        path.len() != upper + 1,
    ensures
        lower <= path.len() <= upper || (path.len() < lower && chain.is_dead_end(path.last())),
{
    let steps = choose|steps: int| lower <= steps <= upper && #[trigger] chain.is_walk(path, steps);
    assert(chain.is_walk(path, steps));
}

/// On a chain whose rows are probability distributions no walk stops early:
/// the number of steps of a generated sentence lies within the bounds, both
/// ends included.
pub proof fn lemma_sentence_length_when_row_stochastic<T: Token>(
    chain: MarkovChain<T>,
    path: Seq<T::V>,
    lower: int,
    upper: int,
)
    requires
        chain.wf(),
        chain.is_row_stochastic(),
        chain.is_sentence(path, lower, upper),
    ensures
        lower <= path.len() - 1 <= upper,
{
    let steps = choose|steps: int| lower <= steps <= upper && #[trigger] chain.is_walk(path, steps);
    assert(chain.is_walk(path, steps));
    let last = path[path.len() - 1];
    assert(chain.vocabulary().contains(last));
    let i = chain.index(last);
    assert(total(chain.row(i)) == chain.totals()[i]);
}

/// Estimation is a function of the corpus: two chains estimated from the
/// same groups have the same vocabulary in the same order, the same table
/// and the same first tokens.
pub proof fn lemma_estimation_is_deterministic<T: Token>(
    a: MarkovChain<T>,
    b: MarkovChain<T>,
    groups: Seq<Seq<T::V>>,
)
    requires
        a.is_built_from(groups),
        b.is_built_from(groups),
    ensures
        a.vocabulary() == b.vocabulary(),
        a.weights() == b.weights(),
        a.totals() == b.totals(),
        a.seeds() == b.seeds(),
{
    let vocab = vocabulary_of(groups);
    let n = vocab.len() as int;
    lemma_distinct_no_duplicates(concat(groups));
    assert forall|x: int| 0 <= x < a.weights().len() implies a.weights()[x] == b.weights()[x] by {
        assert(n > 0) by (nonlinear_arith)
            requires
                0 <= x < n * n,
                0 <= n,
        ;
        let i = x / n;
        let j = x % n;
        lemma_fundamental_div_mod(x, n);
        lemma_mod_bound(x, n);
        lemma_multiply_divide_lt(x, n, n);
        assert(0 <= i) by (nonlinear_arith)
            requires
                0 <= x,
                0 < n,
                i == x / n,
        ;
        assert(n * i == i * n) by (nonlinear_arith);
        lemma_row_entry(a, i, j);
        lemma_row_entry(b, i, j);
        assert(a.row(i)[j] == b.row(i)[j]);
    }
    assert(a.weights() =~= b.weights());
    assert(a.totals() =~= b.totals());
    assert(a.seed_tokens().len() == a.seeds().len());
    assert(b.seed_tokens().len() == b.seeds().len());
    assert forall|k: int| 0 <= k < a.seeds().len() implies a.seeds()[k] == b.seeds()[k] by {
        assert(a.seed_tokens()[k] == b.seed_tokens()[k]);
        assert(a.seeds()[k] < n);
        assert(b.seeds()[k] < n);
    }
    assert(a.seeds() =~= b.seeds());
}

} // verus!
