//! Building and searching a vocabulary: the distinct tokens of a corpus in
//! first-occurrence order.

use crate::model::{
    concat, distinct, first_tokens_of, followers, followers_in, heads, lemma_concat_contains,
    lemma_distinct_contains, lemma_distinct_no_duplicates, vocabulary_of,
};
use crate::token::Token;
use vstd::prelude::*;

verus! {

/// The index of the first token of `tokens` that stands for the same value
/// as `token`, if there is one.
pub fn position<T: Token>(tokens: &Vec<T>, token: &T) -> (r: Option<usize>)
    ensures
        r is Some <==> tokens.deep_view().contains(token.deep_view()),
        r matches Some(i) ==> {
            &&& i < tokens.len()
            &&& tokens.deep_view()[i as int] == token.deep_view()
            &&& forall|j: int| 0 <= j < i ==> tokens.deep_view()[j] != token.deep_view()
        },
{
    let mut i: usize = 0;
    while i < tokens.len()
        invariant
            i <= tokens.len(),
            forall|j: int| 0 <= j < i ==> tokens.deep_view()[j] != token.deep_view(),
        decreases tokens.len() - i,
    {
        if tokens[i].same_as(token) {
            assert(tokens.deep_view()[i as int] == token.deep_view());
            return Some(i);
        }
        i += 1;
    }
    None
}

/// Appends a copy of `token` to `vocabulary` unless a token standing for the
/// same value is already there.
fn push_if_new<T: Token>(vocabulary: &mut Vec<T>, token: &T)
    ensures
        final(vocabulary).deep_view() == if old(vocabulary).deep_view().contains(
            token.deep_view(),
        ) {
            old(vocabulary).deep_view()
        } else {
            old(vocabulary).deep_view().push(token.deep_view())
        },
{
    if position(vocabulary, token).is_none() {
        let copy = token.duplicate();
        vocabulary.push(copy);
        assert(vocabulary.deep_view() =~= old(vocabulary).deep_view().push(token.deep_view()));
    }
}

/// The distinct tokens of a slice, each at the place of its first
/// occurrence.
pub fn distinct_tokens<T: Token>(tokens: &[T]) -> (vocabulary: Vec<T>)
    ensures
        vocabulary.deep_view() == distinct(tokens.deep_view()),
{
    let mut vocabulary: Vec<T> = Vec::new();
    let mut i: usize = 0;
    assert(tokens.deep_view().take(0) =~= Seq::empty());
    assert(vocabulary.deep_view() =~= Seq::empty());
    while i < tokens.len()
        invariant
            i <= tokens.len(),
            vocabulary.deep_view() == distinct(tokens.deep_view().take(i as int)),
        decreases tokens.len() - i,
    {
        push_if_new(&mut vocabulary, &tokens[i]);
        proof {
            let seen = tokens.deep_view().take(i as int + 1);
            assert(seen.drop_last() =~= tokens.deep_view().take(i as int));
            assert(seen.last() == tokens[i as int].deep_view());
        }
        i += 1;
    }
    assert(tokens.deep_view().take(i as int) =~= tokens.deep_view());
    vocabulary
}

/// The vocabulary of a corpus: the distinct tokens of all groups, in the
/// order in which they first occur.
pub fn collect_vocabulary<T: Token>(data: &Vec<Vec<T>>) -> (vocabulary: Vec<T>)
    ensures
        vocabulary.deep_view() == distinct(concat(data.deep_view())),
{
    let ghost groups = data.deep_view();
    let mut vocabulary: Vec<T> = Vec::new();
    let mut g: usize = 0;
    assert(groups.take(0) =~= Seq::empty());
    assert(vocabulary.deep_view() =~= Seq::empty());
    while g < data.len()
        invariant
            g <= data.len(),
            groups == data.deep_view(),
            vocabulary.deep_view() == distinct(concat(groups.take(g as int))),
        decreases data.len() - g,
    {
        let group = &data[g];
        let ghost before = concat(groups.take(g as int));
        let ghost keys = groups[g as int];
        assert(keys == group.deep_view());
        let mut p: usize = 0;
        assert(before + keys.take(0) =~= before);
        while p < group.len()
            invariant
                p <= group.len(),
                keys == group.deep_view(),
                vocabulary.deep_view() == distinct(before + keys.take(p as int)),
            decreases group.len() - p,
        {
            push_if_new(&mut vocabulary, &group[p]);
            proof {
                let seen = before + keys.take(p as int + 1);
                assert(seen.drop_last() =~= before + keys.take(p as int));
                assert(seen.last() == group[p as int].deep_view());
            }
            p += 1;
        }
        proof {
            assert(keys.take(p as int) =~= keys);
            let upto = groups.take(g as int + 1);
            assert(upto.drop_last() =~= groups.take(g as int));
            assert(upto.last() == keys);
        }
        g += 1;
    }
    assert(groups.take(g as int) =~= groups);
    vocabulary
}

/// The observed successors of `current`: every token of `data` that stands
/// right after a token equal to `current` in the same group, in order.
pub fn find_next_tokens<'a, T: Token>(current: &T, data: &'a Vec<Vec<T>>) -> (next: Vec<&'a T>)
    ensures
        next.deep_view() == followers(data.deep_view(), current.deep_view()),
{
    let ghost groups = data.deep_view();
    let ghost key = current.deep_view();
    let mut next: Vec<&'a T> = Vec::new();
    let mut g: usize = 0;
    assert(groups.take(0) =~= Seq::empty());
    assert(next.deep_view() =~= Seq::empty());
    while g < data.len()
        invariant
            g <= data.len(),
            groups == data.deep_view(),
            key == current.deep_view(),
            next.deep_view() == followers(groups.take(g as int), key),
        decreases data.len() - g,
    {
        let group = &data[g];
        let ghost before = followers(groups.take(g as int), key);
        let ghost keys = groups[g as int];
        assert(keys == group.deep_view());
        if group.len() >= 2 {
            let mut p: usize = 1;
            assert(before + followers_in(keys.take(1), key) =~= before);
            while p < group.len()
                invariant
                    1 <= p <= group.len(),
                    keys == group.deep_view(),
                    key == current.deep_view(),
                    next.deep_view() == before + followers_in(keys.take(p as int), key),
                decreases group.len() - p,
            {
                let ghost old_next = next.deep_view();
                if group[p - 1].same_as(current) {
                    next.push(&group[p]);
                    assert(next.deep_view() =~= old_next.push(group[p as int].deep_view()));
                }
                proof {
                    let seen = keys.take(p as int + 1);
                    assert(seen.drop_last() =~= keys.take(p as int));
                    assert(seen.last() == keys[p as int]);
                    assert(seen[seen.len() - 2] == keys[p as int - 1]);
                    assert(keys[p as int - 1] == group[p as int - 1].deep_view());
                    assert(before + followers_in(keys.take(p as int), key).push(keys[p as int])
                        =~= (before + followers_in(keys.take(p as int), key)).push(
                        keys[p as int],
                    ));
                }
                p += 1;
            }
            assert(keys.take(p as int) =~= keys);
        } else {
            assert(before + followers_in(keys, key) =~= before);
        }
        proof {
            let upto = groups.take(g as int + 1);
            assert(upto.drop_last() =~= groups.take(g as int));
            assert(upto.last() == keys);
        }
        g += 1;
    }
    assert(groups.take(g as int) =~= groups);
    next
}

/// Whether `index` is among `indices`.
fn has_index(indices: &Vec<usize>, index: usize) -> (found: bool)
    ensures
        found == indices@.contains(index),
{
    let mut k: usize = 0;
    while k < indices.len()
        invariant
            k <= indices.len(),
            forall|c: int| 0 <= c < k ==> indices@[c] != index,
        decreases indices.len() - k,
    {
        if indices[k] == index {
            return true;
        }
        k += 1;
    }
    false
}

/// The places in `vocabulary` of the tokens that begin a group of `data`,
/// each once, in the order in which they first begin one.
pub fn collect_first_tokens<T: Token>(
    data: &Vec<Vec<T>>,
    vocabulary: &Vec<T>,
) -> (first: Vec<usize>)
    requires
        vocabulary.deep_view() == vocabulary_of(data.deep_view()),
    ensures
        first.len() == first_tokens_of(data.deep_view()).len(),
        forall|k: int|
            0 <= k < first.len() ==> {
                &&& (#[trigger] first[k]) < vocabulary.len()
                &&& vocabulary.deep_view()[first[k] as int] == first_tokens_of(data.deep_view())[k]
            },
{
    let ghost groups = data.deep_view();
    let ghost vocab = vocabulary.deep_view();
    let mut first: Vec<usize> = Vec::new();
    let mut g: usize = 0;
    proof {
        lemma_distinct_no_duplicates(concat(groups));
        assert(groups.take(0) =~= Seq::empty());
    }
    while g < data.len()
        invariant
            g <= data.len(),
            groups == data.deep_view(),
            vocab == vocabulary.deep_view(),
            vocab == vocabulary_of(groups),
            vocab.no_duplicates(),
            first.len() == first_tokens_of(groups.take(g as int)).len(),
            forall|k: int|
                0 <= k < first.len() ==> {
                    &&& (#[trigger] first[k]) < vocabulary.len()
                    &&& vocab[first[k] as int] == first_tokens_of(groups.take(g as int))[k]
                },
        decreases data.len() - g,
    {
        let group = &data[g];
        let ghost seen = first_tokens_of(groups.take(g as int));
        proof {
            let upto = groups.take(g as int + 1);
            assert(upto.drop_last() =~= groups.take(g as int));
            assert(upto.last() == groups[g as int]);
            assert(groups[g as int] == group.deep_view());
        }
        if group.len() > 0 {
            let ghost head = group.deep_view()[0];
            proof {
                assert(head == group[0].deep_view());
                assert(groups[g as int][0] == head);
                lemma_concat_contains(groups, g as int, head);
                lemma_distinct_contains(concat(groups), head);
            }
            proof {
                let grown = heads(groups.take(g as int + 1));
                assert(grown == heads(groups.take(g as int)).push(head));
                assert(grown.drop_last() =~= heads(groups.take(g as int)));
                assert(grown.last() == head);
            }
            let found = position(vocabulary, &group[0]);
            let index = found.unwrap();
            if !has_index(&first, index) {
                proof {
                    if seen.contains(head) {
                        let k = choose|k: int| 0 <= k < seen.len() && seen[k] == head;
                        assert(vocab[first[k] as int] == vocab[index as int]);
                        assert(first@[k] == index);
                    }
                }
                first.push(index);
            } else {
                proof {
                    let k = choose|k: int| 0 <= k < first.len() && first@[k] == index;
                    assert(seen[k] == head);
                }
            }
        } else {
            assert(heads(groups.take(g as int + 1)) == heads(groups.take(g as int)));
        }
        g += 1;
    }
    assert(groups.take(g as int) =~= groups);
    first
}

} // verus!
