//! The chain itself: a vocabulary and a table of exact transition weights.

use crate::error::GenerationError;
use crate::model::{
    concat, departures, distinct, first_tokens_of, followers, lemma_distinct_contains,
    lemma_distinct_no_duplicates, lemma_followers_elements, lemma_index_of_unique,
    lemma_occurrences_bound, lemma_row_bounds, lemma_tally_total, lemma_total_bounds_entry,
    lemma_total_constant, occurrences, row_of, total, transitions, vocabulary_of,
};
use crate::random::{choose_one, gen_range, sample, weighted_index};
use crate::range::ClosedRange;
use crate::token::Token;
use crate::vocabulary::{
    collect_first_tokens, collect_vocabulary, distinct_tokens, find_next_tokens, position,
};
use rand::rngs::ThreadRng;
use rand::thread_rng;
use std::ops::Range;
use vstd::prelude::*;

verus! {

/// A first-order Markov chain over tokens of type `T`.
///
/// The transition table is row-major with one row and one column per token
/// of the vocabulary. The weight of the step from token `i` to token `j` is
/// the fraction `matrix[i * n + j] / row_totals[i]`: every weight of a row
/// has the same denominator, so a row is a probability distribution exactly
/// when its numerators add up to its denominator.
///
/// Beside the table the chain keeps the first tokens: the places in the
/// vocabulary of the tokens that began a group of the corpus.
pub struct MarkovChain<T: Token> {
    tokens: Vec<T>,
    matrix: Vec<usize>,
    row_totals: Vec<usize>,
    first_tokens: Vec<usize>,
}

/// A row of `n` equal weights.
fn uniform_row(n: usize) -> (row: Vec<usize>)
    ensures
        row.len() == n,
        forall|c: int| 0 <= c < n ==> row[c] == 1,
        total(row@) == n,
{
    let mut row: Vec<usize> = Vec::new();
    while row.len() < n
        invariant
            row.len() <= n,
            forall|c: int| 0 <= c < row.len() ==> row[c] == 1,
        decreases n - row.len(),
    {
        row.push(1);
    }
    proof {
        lemma_total_constant(row@, 1);
    }
    row
}

/// For each token of `vocabulary`, how often it occurs in `next`.
fn count_row<T: Token>(vocabulary: &Vec<T>, next: &Vec<&T>) -> (row: Vec<usize>)
    requires
        vocabulary.deep_view().no_duplicates(),
        forall|k: int|
            0 <= k < next.len() ==> vocabulary.deep_view().contains(#[trigger] next.deep_view()[k]),
    ensures
        row.len() == vocabulary.len(),
        forall|c: int|
            0 <= c < vocabulary.len() ==> #[trigger] row[c] == occurrences(
                next.deep_view(),
                vocabulary.deep_view()[c],
            ),
        total(row@) == next.len(),
{
    let ghost vocab = vocabulary.deep_view();
    let ghost observed = next.deep_view();
    let n = vocabulary.len();
    let mut row: Vec<usize> = Vec::new();
    while row.len() < n
        invariant
            row.len() <= n,
            forall|c: int| 0 <= c < row.len() ==> row[c] == 0,
        decreases n - row.len(),
    {
        row.push(0);
    }
    let mut k: usize = 0;
    while k < next.len()
        invariant
            k <= next.len(),
            n == vocabulary.len(),
            row.len() == n,
            vocab == vocabulary.deep_view(),
            observed == next.deep_view(),
            vocab.no_duplicates(),
            forall|k: int| 0 <= k < observed.len() ==> vocab.contains(#[trigger] observed[k]),
            forall|c: int|
                0 <= c < n ==> #[trigger] row[c] == occurrences(observed.take(k as int), vocab[c]),
        decreases next.len() - k,
    {
        assert(vocab.contains(observed[k as int]));
        assert(observed[k as int] == next[k as int].deep_view());
        let found = position(vocabulary, next[k]);
        let j = found.unwrap();
        proof {
            let seen = observed.take(k as int + 1);
            assert(seen.drop_last() =~= observed.take(k as int));
            assert(seen.last() == observed[k as int]);
            lemma_occurrences_bound(observed.take(k as int), vocab[j as int]);
        }
        let count = row[j];
        row.set(j, count + 1);
        k += 1;
    }
    proof {
        assert(observed.take(k as int) =~= observed);
        lemma_tally_total(observed, vocab, row@);
    }
    row
}

/// Whether some weight of `row` is not zero.
fn has_weight(row: &[usize]) -> (found: bool)
    ensures
        found == (total(row@) > 0),
{
    let mut k: usize = 0;
    while k < row.len()
        invariant
            k <= row.len(),
            forall|c: int| 0 <= c < k ==> row@[c] == 0,
        decreases row.len() - k,
    {
        if row[k] != 0 {
            proof {
                lemma_total_bounds_entry(row@, k as int);
            }
            return true;
        }
        k += 1;
    }
    proof {
        lemma_total_constant(row@, 0);
    }
    false
}

impl<T: Token> MarkovChain<T> {
    /// The distinct values the tokens stand for; the position of each is its
    /// index, used as both row and column coordinate of the table.
    pub closed spec fn vocabulary(&self) -> Seq<T::V> {
        self.tokens.deep_view()
    }

    /// The numerators of the weights, row after row.
    pub closed spec fn weights(&self) -> Seq<usize> {
        self.matrix@
    }

    /// The denominator of the weights of each row.
    pub closed spec fn totals(&self) -> Seq<usize> {
        self.row_totals@
    }

    /// The places in the vocabulary of the tokens a sentence may start
    /// with.
    pub closed spec fn seeds(&self) -> Seq<usize> {
        self.first_tokens@
    }

    /// The values of the tokens a sentence may start with.
    pub open spec fn seed_tokens(&self) -> Seq<T::V> {
        Seq::new(self.seeds().len(), |k: int| self.vocabulary()[self.seeds()[k] as int])
    }

    /// The numerators of the weights that leave token `i`.
    pub open spec fn row(&self, i: int) -> Seq<usize> {
        row_of(self.weights(), self.vocabulary().len() as int, i)
    }

    /// The table fits the vocabulary: no token occurs twice, there is one
    /// row and one column per token, the numerators of a row can be added
    /// up in a machine word, and every first token is a token of the
    /// vocabulary. This is the invariant of the type: it holds of every
    /// chain a program can hold.
    pub open spec fn wf(&self) -> bool {
        let n = self.vocabulary().len();
        &&& self.vocabulary().no_duplicates()
        &&& self.weights().len() == n * n
        &&& self.totals().len() == n
        &&& forall|i: int| 0 <= i < n ==> total(#[trigger] self.row(i)) <= usize::MAX
        &&& forall|k: int| 0 <= k < self.seeds().len() ==> (#[trigger] self.seeds()[k]) < n
    }

    /// Every chain there is is well formed.
    #[verifier::type_invariant]
    spec fn always_well_formed(self) -> bool {
        self.wf()
    }

    /// Every row is a probability distribution: its weights add up to
    /// exactly one.
    pub open spec fn is_row_stochastic(&self) -> bool {
        forall|i: int|
            0 <= i < self.vocabulary().len() ==> {
                &&& self.totals()[i] > 0
                &&& total(#[trigger] self.row(i)) == self.totals()[i]
            }
    }

    /// The chain is the one estimated from `groups`: its vocabulary is that
    /// of the corpus, the weight from a token with observed successors to
    /// another is the share of that other among them, a token without
    /// observed successors steps to every token with equal weight, and the
    /// first tokens are those that begin a group.
    pub open spec fn is_built_from(&self, groups: Seq<Seq<T::V>>) -> bool {
        let vocab = vocabulary_of(groups);
        let n = vocab.len();
        &&& self.vocabulary() == vocab
        &&& self.weights().len() == n * n
        &&& self.totals().len() == n
        &&& self.seed_tokens() == first_tokens_of(groups)
        &&& forall|k: int| 0 <= k < self.seeds().len() ==> (#[trigger] self.seeds()[k]) < n
        &&& forall|i: int|
            0 <= i < n ==> #[trigger] self.totals()[i] == departures(groups, n, vocab[i])
        &&& forall|i: int, j: int|
            0 <= i < n && 0 <= j < n ==> #[trigger] self.row(i)[j] == transitions(
                groups,
                vocab[i],
                vocab[j],
            )
    }

    /// Estimates a chain from grouped sequences of tokens. Adjacency is
    /// counted inside each group only; groups of fewer than two tokens add
    /// to the vocabulary and to nothing else.
    pub fn from_grouped_data(data: Vec<Vec<T>>) -> (chain: MarkovChain<T>)
        ensures
            chain.is_built_from(data.deep_view()),
            chain.wf(),
            chain.is_row_stochastic(),
    {
        let tokens = collect_vocabulary(&data);
        let n = tokens.len();
        let ghost groups = data.deep_view();
        let ghost vocab = tokens.deep_view();
        proof {
            lemma_distinct_no_duplicates(concat(groups));
        }
        let mut matrix: Vec<usize> = Vec::new();
        let mut row_totals: Vec<usize> = Vec::new();
        let mut i: usize = 0;
        while i < n
            invariant
                i <= n,
                n == tokens.len(),
                vocab == tokens.deep_view(),
                groups == data.deep_view(),
                vocab == vocabulary_of(groups),
                vocab.no_duplicates(),
                matrix.len() == i * n,
                row_totals.len() == i,
                forall|r: int|
                    0 <= r < i ==> #[trigger] row_totals[r] == departures(
                        groups,
                        n as nat,
                        vocab[r],
                    ),
                forall|r: int, c: int|
                    0 <= r < i && 0 <= c < n ==> #[trigger] row_of(matrix@, n as int, r)[c]
                        == transitions(groups, vocab[r], vocab[c]),
                forall|r: int|
                    0 <= r < i ==> row_totals[r] > 0 && total(
                        #[trigger] row_of(matrix@, n as int, r),
                    ) == row_totals[r],
            decreases n - i,
        {
            let next = find_next_tokens(&tokens[i], &data);
            let ghost observed = followers(groups, vocab[i as int]);
            assert(next.deep_view() == observed);
            let total_weight = if next.len() == 0 {
                n
            } else {
                next.len()
            };
            let mut row = if next.len() == 0 {
                uniform_row(n)
            } else {
                proof {
                    lemma_followers_elements(groups, vocab[i as int]);
                    assert forall|k: int| 0 <= k < next.len() implies vocab.contains(
                        #[trigger] next.deep_view()[k],
                    ) by {
                        lemma_distinct_contains(concat(groups), observed[k]);
                    }
                }
                count_row(&tokens, &next)
            };
            let ghost old_matrix = matrix@;
            let ghost new_row = row@;
            matrix.append(&mut row);
            row_totals.push(total_weight);
            proof {
                lemma_row_bounds(n as int, i as int, i as int + 1);
                assert(row_of(matrix@, n as int, i as int) =~= new_row);
                assert forall|r: int| 0 <= r < i implies #[trigger] row_of(matrix@, n as int, r)
                    == row_of(old_matrix, n as int, r) by {
                    lemma_row_bounds(n as int, r, i as int);
                    assert(row_of(matrix@, n as int, r) =~= row_of(old_matrix, n as int, r));
                }
            }
            i += 1;
        }
        let first_tokens = collect_first_tokens(&data, &tokens);
        let chain = MarkovChain { tokens, matrix, row_totals, first_tokens };
        assert(chain.seed_tokens() =~= first_tokens_of(groups));
        chain
    }

    /// Estimates a chain from one continuous sequence: the chain of the
    /// corpus whose only group is `data`.
    pub fn from_continuous_data(data: Vec<T>) -> (chain: MarkovChain<T>)
        ensures
            chain.is_built_from(seq![data.deep_view()]),
            chain.wf(),
            chain.is_row_stochastic(),
    {
        let ghost keys = data.deep_view();
        let mut groups: Vec<Vec<T>> = Vec::new();
        groups.push(data);
        assert(groups.deep_view() =~= seq![keys]);
        MarkovChain::from_grouped_data(groups)
    }

    /// A chain over the distinct tokens of `tokens`, in first-occurrence
    /// order, with the given table: `matrix` holds the numerators of the
    /// weights row after row, `row_totals` the denominator of each row. The
    /// table has one row and one column per distinct token, and the
    /// numerators of each row can be added up in a machine word. The rows
    /// need not be probability distributions. The chain has no first tokens.
    pub fn new(
        tokens: &[T],
        matrix: Vec<usize>,
        row_totals: Vec<usize>,
    ) -> (chain: MarkovChain<T>)
        requires
            matrix.len() == distinct(tokens.deep_view()).len() * distinct(tokens.deep_view()).len(),
            row_totals.len() == distinct(tokens.deep_view()).len(),
            forall|i: int|
                0 <= i < distinct(tokens.deep_view()).len() ==> total(
                    #[trigger] row_of(matrix@, distinct(tokens.deep_view()).len() as int, i),
                ) <= usize::MAX,
        ensures
            chain.vocabulary() == distinct(tokens.deep_view()),
            chain.weights() == matrix@,
            chain.totals() == row_totals@,
            chain.seeds() == Seq::<usize>::empty(),
            chain.wf(),
    {
        proof {
            lemma_distinct_no_duplicates(tokens.deep_view());
        }
        MarkovChain {
            tokens: distinct_tokens(tokens),
            matrix,
            row_totals,
            first_tokens: Vec::new(),
        }
    }

    /// The tokens of the vocabulary, each at its index.
    pub fn tokens(&self) -> (tokens: &[T])
        ensures
            tokens.deep_view() == self.vocabulary(),
    {
        let tokens = self.tokens.as_slice();
        assert(tokens.deep_view() =~= self.vocabulary());
        tokens
    }

    /// The numerators of the weights, row after row.
    pub fn matrix(&self) -> (matrix: &[usize])
        ensures
            matrix@ == self.weights(),
    {
        self.matrix.as_slice()
    }

    /// The denominator of the weights of each row.
    pub fn row_totals(&self) -> (totals: &[usize])
        ensures
            totals@ == self.totals(),
    {
        self.row_totals.as_slice()
    }

    /// The indices of the tokens a sentence may start with.
    pub fn first_tokens(&self) -> (first: &[usize])
        ensures
            first@ == self.seeds(),
    {
        self.first_tokens.as_slice()
    }

    /// The number of tokens in the vocabulary.
    pub fn len(&self) -> (n: usize)
        ensures
            n == self.vocabulary().len(),
    {
        self.tokens.len()
    }

    /// The token at `index`, if the vocabulary has that many tokens.
    pub fn token_at(&self, index: usize) -> (token: Option<&T>)
        ensures
            token is Some <==> index < self.vocabulary().len(),
            token matches Some(t) ==> t.deep_view() == self.vocabulary()[index as int],
    {
        if index < self.tokens.len() {
            Some(&self.tokens[index])
        } else {
            None
        }
    }

    /// The index of `token`, if it is in the vocabulary: the first place
    /// where a token standing for the same value is found.
    pub fn index_of(&self, token: &T) -> (index: Option<usize>)
        ensures
            index is Some <==> self.vocabulary().contains(token.deep_view()),
            index matches Some(i) ==> {
                &&& i < self.vocabulary().len()
                &&& self.vocabulary()[i as int] == token.deep_view()
                &&& forall|j: int| 0 <= j < i ==> self.vocabulary()[j] != token.deep_view()
            },
    {
        position(&self.tokens, token)
    }

    /// Where `key` stands in the vocabulary.
    pub open spec fn index(&self, key: T::V) -> int {
        self.vocabulary().index_of(key)
    }

    /// The numerator of the weight of the step from `from` to `to`.
    pub open spec fn weight(&self, from: T::V, to: T::V) -> int {
        self.row(self.index(from))[self.index(to)] as int
    }

    /// No step leaves `key`: every weight of its row is zero.
    pub open spec fn is_dead_end(&self, key: T::V) -> bool {
        total(self.row(self.index(key))) == 0
    }

    /// The step from place `k` of `path` to the next has a weight above
    /// zero.
    pub open spec fn takes_step(&self, path: Seq<T::V>, k: int) -> bool {
        self.weight(path[k], path[k + 1]) > 0
    }

    /// `path` is a walk of at most `steps` steps: it starts at a token of the
    /// vocabulary, every step has a weight above zero, and it takes fewer
    /// than `steps` steps only where it has reached a token that no step
    /// leaves.
    pub open spec fn is_walk(&self, path: Seq<T::V>, steps: int) -> bool {
        &&& 1 <= path.len() <= steps + 1
        &&& forall|k: int| 0 <= k < path.len() ==> self.vocabulary().contains(#[trigger] path[k])
        &&& forall|k: int| 0 <= k < path.len() - 1 ==> #[trigger] self.takes_step(path, k)
        &&& path.len() < steps + 1 ==> self.is_dead_end(path.last())
    }

    /// `path` is a sentence for the bounds `lower` and `upper`: a walk of at
    /// most `steps` steps for some `steps` from `lower` to `upper`. Counting
    /// the token it starts at, a sentence of `steps` steps has `steps + 1`
    /// tokens.
    pub open spec fn is_sentence(&self, path: Seq<T::V>, lower: int, upper: int) -> bool {
        exists|steps: int| lower <= steps <= upper && #[trigger] self.is_walk(path, steps)
    }

    /// The weights that leave the token at `index`.
    fn row_slice(&self, index: usize) -> (row: &[usize])
        requires
            self.wf(),
            index < self.vocabulary().len(),
        ensures
            row@ == self.row(index as int),
            row@.len() == self.vocabulary().len(),
    {
        let n = self.tokens.len();
        proof {
            assert(self.vocabulary().len() == n);
            assert(self.matrix.len() == n * n);
            lemma_row_bounds(n as int, index as int, n as int);
        }
        let start = index * n;
        let slice = self.matrix.as_slice();
        let row = &slice[start..start + n];
        assert(row@ =~= self.row(index as int));
        row
    }

    /// Fails where the chain has no token to generate from.
    fn assert_able_to_generate(&self) -> (able: Result<(), GenerationError>)
        ensures
            able is Ok <==> self.vocabulary().len() > 0,
            able is Err ==> able == Err::<(), GenerationError>(GenerationError::EmptyVocabulary),
    {
        if self.tokens.len() == 0 {
            return Err(GenerationError::EmptyVocabulary);
        }
        Ok(())
    }

    /// Draws the token that follows `current`, with a chance proportional to
    /// the weight of the step; none where no step leaves `current`.
    fn generate_next_token<'a>(&'a self, current: &T, rng: &mut ThreadRng) -> (next: Option<&'a T>)
        requires
            self.wf(),
            self.vocabulary().contains(current.deep_view()),
        ensures
            next is None <==> self.is_dead_end(current.deep_view()),
            next matches Some(token) ==> {
                &&& self.vocabulary().contains(token.deep_view())
                &&& self.weight(current.deep_view(), token.deep_view()) > 0
            },
    {
        let found = position(&self.tokens, current);
        let index = found.unwrap();
        proof {
            lemma_index_of_unique(self.vocabulary(), index as int);
        }
        let row = self.row_slice(index);
        if has_weight(row) {
            match weighted_index(row) {
                Ok(distribution) => {
                    let drawn = sample(&distribution, rng);
                    let token = &self.tokens[drawn];
                    proof {
                        assert(self.vocabulary()[drawn as int] == token.deep_view());
                        lemma_index_of_unique(self.vocabulary(), drawn as int);
                    }
                    Some(token)
                },
                Err(_) => None,
            }
        } else {
            None
        }
    }

    /// Walks from `seed` for up to `steps` steps, each drawn by
    /// `generate_next_token`, and stops early where no step leaves the token
    /// reached.
    fn walk<'a>(&'a self, seed: &'a T, steps: usize, rng: &mut ThreadRng) -> (path: Vec<T>)
        requires
            self.wf(),
            self.vocabulary().contains(seed.deep_view()),
        ensures
            self.is_walk(path.deep_view(), steps as int),
            path.deep_view()[0] == seed.deep_view(),
    {
        let mut path: Vec<T> = Vec::new();
        let mut current: &'a T = seed;
        path.push(current.duplicate());
        let mut taken: usize = 0;
        let mut stopped = false;
        assert(path.deep_view() =~= seq![seed.deep_view()]);
        while taken < steps && !stopped
            invariant
                self.wf(),
                taken <= steps,
                path.len() == taken + 1,
                path.deep_view()[0] == seed.deep_view(),
                path.deep_view().last() == current.deep_view(),
                forall|k: int|
                    0 <= k < path.len() ==> self.vocabulary().contains(
                        #[trigger] path.deep_view()[k],
                    ),
                forall|k: int|
                    0 <= k < path.len() - 1 ==> #[trigger] self.takes_step(path.deep_view(), k),
                stopped ==> self.is_dead_end(path.deep_view().last()),
            decreases
                    steps - taken + if stopped {
                        0int
                    } else {
                        1int
                    },
        {
            let ghost before = path.deep_view();
            match self.generate_next_token(current, rng) {
                None => {
                    stopped = true;
                },
                Some(token) => {
                    current = token;
                    path.push(current.duplicate());
                    taken += 1;
                    proof {
                        let after = path.deep_view();
                        assert(after =~= before.push(token.deep_view()));
                        assert forall|k: int|
                            0 <= k < after.len() - 1 implies #[trigger] self.takes_step(after, k) by {
                            if k < before.len() - 1 {
                                assert(self.takes_step(before, k));
                            }
                        }
                    }
                },
            }
        }
        path
    }

    /// Walks from `seed` for up to `steps` steps: the seed, then one token
    /// for each step taken. Each step is drawn with a chance proportional to
    /// its weight. There is no walk from a token outside the vocabulary.
    pub fn walk_from(&self, seed: &T, steps: usize) -> (walked: Option<Vec<T>>)
        ensures
            walked is Some <==> self.vocabulary().contains(seed.deep_view()),
            walked matches Some(path) ==> {
                &&& self.is_walk(path.deep_view(), steps as int)
                &&& path.deep_view()[0] == seed.deep_view()
            },
    {
        proof {
            use_type_invariant(self);
        }
        match position(&self.tokens, seed) {
            None => None,
            Some(index) => {
                let mut rng = thread_rng();
                Some(self.walk(&self.tokens[index], steps, &mut rng))
            },
        }
    }

    /// Draws the token a sequence starts at: uniformly from the first
    /// tokens where `among_first` is set, else uniformly from the whole
    /// vocabulary.
    fn draw_seed<'a>(&'a self, among_first: bool, rng: &mut ThreadRng) -> (seed: &'a T)
        requires
            self.wf(),
            self.vocabulary().len() > 0,
            among_first ==> self.seeds().len() > 0,
        ensures
            self.vocabulary().contains(seed.deep_view()),
            among_first ==> self.seed_tokens().contains(seed.deep_view()),
    {
        if among_first {
            let chosen = choose_one(self.first_tokens.as_slice(), rng);
            let index: usize = *chosen.unwrap();
            let seed = &self.tokens[index];
            proof {
                let k = choose|k: int| 0 <= k < self.seeds().len() && self.seeds()[k] == index;
                assert(self.seed_tokens()[k] == seed.deep_view());
                assert(self.vocabulary()[index as int] == seed.deep_view());
            }
            seed
        } else {
            let chosen = choose_one(self.tokens.as_slice(), rng);
            let seed = chosen.unwrap();
            proof {
                let i = choose|i: int| 0 <= i < self.tokens@.len() && self.tokens@[i] == *seed;
                assert(self.vocabulary()[i] == seed.deep_view());
            }
            seed
        }
    }

    /// Generates `sentence_count` sequences, each from a drawn seed and with
    /// a number of steps drawn from `lengths`.
    fn generate_each(
        &self,
        sentence_count: usize,
        lengths: Range<usize>,
        among_first: bool,
    ) -> (sentences: Vec<Vec<T>>)
        requires
            self.wf(),
            self.vocabulary().len() > 0,
            among_first ==> self.seeds().len() > 0,
            lengths.start < lengths.end,
        ensures
            sentences.len() == sentence_count,
            forall|s: int|
                0 <= s < sentences.len() ==> {
                    &&& self.is_sentence(
                        #[trigger] sentences.deep_view()[s],
                        lengths.start as int,
                        lengths.end - 1,
                    )
                    &&& among_first ==> self.seed_tokens().contains(sentences.deep_view()[s][0])
                },
    {
        let mut rng = thread_rng();
        let mut sentences: Vec<Vec<T>> = Vec::new();
        let mut made: usize = 0;
        while made < sentence_count
            invariant
                self.wf(),
                self.vocabulary().len() > 0,
                among_first ==> self.seeds().len() > 0,
                lengths.start < lengths.end,
                made <= sentence_count,
                sentences.len() == made,
                forall|s: int|
                    0 <= s < sentences.len() ==> {
                        &&& self.is_sentence(
                            #[trigger] sentences.deep_view()[s],
                            lengths.start as int,
                            lengths.end - 1,
                        )
                        &&& among_first ==> self.seed_tokens().contains(
                            sentences.deep_view()[s][0],
                        )
                    },
            decreases sentence_count - made,
        {
            let ghost before = sentences.deep_view();
            let seed = self.draw_seed(among_first, &mut rng);
            let steps = gen_range(&mut rng, Range { start: lengths.start, end: lengths.end });
            let sentence = self.walk(seed, steps, &mut rng);
            let ghost walked = sentence.deep_view();
            sentences.push(sentence);
            made += 1;
            proof {
                let after = sentences.deep_view();
                assert(after =~= before.push(walked));
                assert forall|s: int| 0 <= s < after.len() implies {
                    &&& self.is_sentence(#[trigger] after[s], lengths.start as int, lengths.end - 1)
                    &&& among_first ==> self.seed_tokens().contains(after[s][0])
                } by {
                    if s < before.len() {
                        assert(after[s] == before[s]);
                    } else {
                        assert(self.is_walk(after[s], steps as int));
                    }
                }
            }
        }
        sentences
    }

    /// Generates `sentence_count` sequences. Each starts at a token drawn
    /// uniformly from the vocabulary and walks on for a number of steps drawn
    /// uniformly from `sentence_length_bounds`, both ends included; it is
    /// shorter only where the walk reaches a token that no step leaves.
    /// Fails, before anything is drawn, on a chain without tokens.
    pub fn generate<R: ClosedRange>(
        &self,
        sentence_count: usize,
        sentence_length_bounds: R,
    ) -> (generated: Result<Vec<Vec<T>>, GenerationError>)
        requires
            self.vocabulary().len() > 0 && sentence_count > 0 ==> {
                &&& sentence_length_bounds.is_bounded()
                &&& sentence_length_bounds.lower() <= sentence_length_bounds.upper()
            },
        ensures
            self.vocabulary().len() == 0 ==> generated == Err::<Vec<Vec<T>>, GenerationError>(
                GenerationError::EmptyVocabulary,
            ),
            self.vocabulary().len() > 0 ==> generated is Ok,
            generated matches Ok(sentences) ==> {
                &&& sentences.len() == sentence_count
                &&& forall|s: int|
                    0 <= s < sentences.len() ==> self.is_sentence(
                        #[trigger] sentences.deep_view()[s],
                        sentence_length_bounds.lower(),
                        sentence_length_bounds.upper(),
                    )
            },
    {
        proof {
            use_type_invariant(self);
        }
        if self.assert_able_to_generate().is_err() {
            return Err(GenerationError::EmptyVocabulary);
        }
        if sentence_count == 0 {
            return Ok(Vec::new());
        }
        let lengths = sentence_length_bounds.as_open_range();
        Ok(self.generate_each(sentence_count, lengths, false))
    }

    /// Generates `sentence_count` sequences as `generate` does, but each
    /// starts at a token drawn uniformly from the first tokens. Fails,
    /// before anything is drawn, on a chain without tokens or without first
    /// tokens.
    pub fn generate_sentences<R: ClosedRange>(
        &self,
        sentence_count: usize,
        sentence_length_bounds: R,
    ) -> (generated: Result<Vec<Vec<T>>, GenerationError>)
        requires
            self.seeds().len() > 0 && sentence_count > 0 ==> {
                &&& sentence_length_bounds.is_bounded()
                &&& sentence_length_bounds.lower() <= sentence_length_bounds.upper()
            },
        ensures
            self.vocabulary().len() == 0 ==> generated == Err::<Vec<Vec<T>>, GenerationError>(
                GenerationError::EmptyVocabulary,
            ),
            self.vocabulary().len() > 0 && self.seeds().len() == 0 ==> generated == Err::<
                Vec<Vec<T>>,
                GenerationError,
            >(GenerationError::NoSeedTokens),
            self.vocabulary().len() > 0 && self.seeds().len() > 0 ==> generated is Ok,
            generated matches Ok(sentences) ==> {
                &&& sentences.len() == sentence_count
                &&& forall|s: int|
                    0 <= s < sentences.len() ==> {
                        &&& self.is_sentence(
                            #[trigger] sentences.deep_view()[s],
                            sentence_length_bounds.lower(),
                            sentence_length_bounds.upper(),
                        )
                        &&& self.seed_tokens().contains(sentences.deep_view()[s][0])
                    }
            },
    {
        proof {
            use_type_invariant(self);
        }
        if self.assert_able_to_generate().is_err() {
            return Err(GenerationError::EmptyVocabulary);
        }
        if self.first_tokens.len() == 0 {
            return Err(GenerationError::NoSeedTokens);
        }
        if sentence_count == 0 {
            return Ok(Vec::new());
        }
        let lengths = sentence_length_bounds.as_open_range();
        Ok(self.generate_each(sentence_count, lengths, true))
    }
}

} // verus!
