//! The tokenizer: plain text to sentences of lowercase words.
//!
//! Everything but letters, full stops, commas and spaces is dropped. A full
//! stop ends a sentence; spaces part the words of a sentence; the commas at
//! the end of a word make one token `,` of their own.

use crate::model::concat;
use crate::text::{characters, is_letter, lowercase, lowercase_of};
use vstd::prelude::*;

verus! {

/// Sentences of tokens, as a chain is estimated from them.
pub type Sentences = Vec<Vec<String>>;

/// Whether the tokenizer keeps `c`.
pub open spec fn is_kept(c: char) -> bool {
    is_letter(c) || c == '.' || c == ',' || c == ' '
}

/// The characters of `text` that the tokenizer keeps, in order.
pub open spec fn kept(text: Seq<char>) -> Seq<char>
    decreases text.len(),
{
    if text.len() == 0 {
        Seq::empty()
    } else {
        let init = kept(text.drop_last());
        if is_kept(text.last()) {
            init.push(text.last())
        } else {
            init
        }
    }
}

/// The pieces of `text` between the occurrences of `separator`: one more
/// piece than there are separators, empty pieces included.
pub open spec fn split_on(text: Seq<char>, separator: char) -> Seq<Seq<char>>
    decreases text.len(),
{
    if text.len() == 0 {
        seq![Seq::empty()]
    } else {
        let init = split_on(text.drop_last(), separator);
        if text.last() == separator {
            init.push(Seq::empty())
        } else {
            init.update(init.len() - 1, init.last().push(text.last()))
        }
    }
}

/// A text has at least one piece.
pub proof fn lemma_split_on_is_not_empty(text: Seq<char>, separator: char)
    ensures
        split_on(text, separator).len() >= 1,
    decreases text.len(),
{
    if text.len() > 0 {
        lemma_split_on_is_not_empty(text.drop_last(), separator);
    }
}

/// The parts that are not empty, in order.
pub open spec fn without_empty<A>(parts: Seq<Seq<A>>) -> Seq<Seq<A>>
    decreases parts.len(),
{
    if parts.len() == 0 {
        Seq::empty()
    } else {
        let init = without_empty(parts.drop_last());
        if parts.last().len() > 0 {
            init.push(parts.last())
        } else {
            init
        }
    }
}

/// The words of a sentence: its maximal runs of characters other than the
/// space.
pub open spec fn words(sentence: Seq<char>) -> Seq<Seq<char>> {
    without_empty(split_on(sentence, ' '))
}

/// `word` without the commas at its end.
pub open spec fn trim_commas(word: Seq<char>) -> Seq<char>
    decreases word.len(),
{
    if word.len() > 0 && word.last() == ',' {
        trim_commas(word.drop_last())
    } else {
        word
    }
}

/// What a word gives: the word without the commas at its end, then a comma
/// if it ended in one. Either may be empty.
pub open spec fn word_items(word: Seq<char>) -> Seq<Seq<char>> {
    seq![
        trim_commas(word),
        if word.len() > 0 && word.last() == ',' {
            seq![',']
        } else {
            Seq::empty()
        },
    ]
}

/// What the words of a sentence give, word after word.
pub open spec fn sentence_items(sentence: Seq<char>) -> Seq<Seq<char>> {
    concat(words(sentence).map_values(|word: Seq<char>| word_items(word)))
}

/// The tokens made of the items of a sentence: those that are not empty, in
/// lowercase.
pub open spec fn tokens_of(items: Seq<Seq<char>>) -> Seq<Seq<char>> {
    without_empty(items).map_values(|item: Seq<char>| lowercase_of(item))
}

/// The sentences of `text`: the kept characters are cut at the full stops,
/// a piece without a word is no sentence, and each other piece gives the
/// tokens of its words.
pub open spec fn sentences_of(text: Seq<char>) -> Seq<Seq<Seq<char>>> {
    without_empty(
        split_on(kept(text), '.').map_values(|piece: Seq<char>| sentence_items(piece)),
    ).map_values(|items: Seq<Seq<char>>| tokens_of(items))
}

/// What each vector holds.
pub open spec fn views(parts: Seq<Vec<char>>) -> Seq<Seq<char>> {
    Seq::new(parts.len(), |i: int| parts[i]@)
}

/// The characters of `chars` that the tokenizer keeps.
fn keep(chars: &Vec<char>) -> (cleaned: Vec<char>)
    ensures
        cleaned@ == kept(chars@),
{
    let mut cleaned: Vec<char> = Vec::new();
    let mut i: usize = 0;
    assert(chars@.take(0) =~= Seq::empty());
    while i < chars.len()
        invariant
            i <= chars.len(),
            cleaned@ == kept(chars@.take(i as int)),
        decreases chars.len() - i,
    {
        let c = chars[i];
        proof {
            let seen = chars@.take(i as int + 1);
            assert(seen.drop_last() =~= chars@.take(i as int));
            assert(seen.last() == c);
        }
        if c.is_alphabetic() || c == '.' || c == ',' || c == ' ' {
            cleaned.push(c);
        }
        i += 1;
    }
    assert(chars@.take(i as int) =~= chars@);
    cleaned
}

/// The pieces of `chars` between the occurrences of `separator`.
pub fn split(chars: &Vec<char>, separator: char) -> (pieces: Vec<Vec<char>>)
    ensures
        views(pieces@) == split_on(chars@, separator),
{
    let mut pieces: Vec<Vec<char>> = Vec::new();
    let mut piece: Vec<char> = Vec::new();
    let mut i: usize = 0;
    assert(chars@.take(0) =~= Seq::empty());
    assert(views(pieces@).push(piece@) =~= seq![Seq::<char>::empty()]);
    while i < chars.len()
        invariant
            i <= chars.len(),
            views(pieces@).push(piece@) == split_on(chars@.take(i as int), separator),
        decreases chars.len() - i,
    {
        let c = chars[i];
        let ghost done = views(pieces@);
        let ghost open = piece@;
        proof {
            let seen = chars@.take(i as int + 1);
            assert(seen.drop_last() =~= chars@.take(i as int));
            assert(seen.last() == c);
        }
        if c == separator {
            pieces.push(piece);
            piece = Vec::new();
            assert(views(pieces@).push(piece@) =~= done.push(open).push(Seq::empty()));
        } else {
            piece.push(c);
            assert(views(pieces@).push(piece@) =~= done.push(open).update(
                done.len() as int,
                open.push(c),
            ));
        }
        i += 1;
    }
    assert(chars@.take(i as int) =~= chars@);
    let ghost done = views(pieces@);
    let ghost open = piece@;
    pieces.push(piece);
    assert(views(pieces@) =~= done.push(open));
    pieces
}

/// `word` without the commas at its end.
pub fn trim(word: &Vec<char>) -> (trimmed: Vec<char>)
    ensures
        trimmed@ == trim_commas(word@),
{
    let mut end: usize = word.len();
    assert(word@.take(end as int) =~= word@);
    while end > 0 && word[end - 1] == ','
        invariant
            end <= word.len(),
            trim_commas(word@) == trim_commas(word@.take(end as int)),
        decreases end,
    {
        assert(word@.take(end as int).drop_last() =~= word@.take(end as int - 1));
        end -= 1;
    }
    let mut trimmed: Vec<char> = Vec::new();
    let mut i: usize = 0;
    while i < end
        invariant
            i <= end <= word.len(),
            trimmed@ == word@.take(i as int),
        decreases end - i,
    {
        trimmed.push(word[i]);
        assert(word@.take(i as int + 1) =~= word@.take(i as int).push(word@[i as int]));
        i += 1;
    }
    trimmed
}

/// What the words of `sentence` give, word after word.
pub fn items_of(sentence: &Vec<char>) -> (items: Vec<Vec<char>>)
    ensures
        views(items@) == sentence_items(sentence@),
{
    let parts = split(sentence, ' ');
    let ghost runs = views(parts@);
    let mut items: Vec<Vec<char>> = Vec::new();
    let mut k: usize = 0;
    assert(runs.take(0) =~= Seq::empty());
    assert(without_empty(runs.take(0)).map_values(|word: Seq<char>| word_items(word))
        =~= Seq::empty());
    assert(views(items@) =~= Seq::empty());
    while k < parts.len()
        invariant
            k <= parts.len(),
            runs == views(parts@),
            views(items@) == concat(
                without_empty(runs.take(k as int)).map_values(|word: Seq<char>| word_items(word)),
            ),
        decreases parts.len() - k,
    {
        let part = &parts[k];
        let ghost before = views(items@);
        let ghost found = without_empty(runs.take(k as int));
        proof {
            let upto = runs.take(k as int + 1);
            assert(upto.drop_last() =~= runs.take(k as int));
            assert(upto.last() == part@);
        }
        if part.len() > 0 {
            let mut comma: Vec<char> = Vec::new();
            if part[part.len() - 1] == ',' {
                comma.push(',');
                assert(comma@ =~= seq![',']);
            }
            items.push(trim(part));
            items.push(comma);
            proof {
                let grown = found.push(part@).map_values(|word: Seq<char>| word_items(word));
                assert(grown.drop_last() =~= found.map_values(|word: Seq<char>| word_items(word)));
                assert(grown.last() == word_items(part@));
                assert(views(items@) =~= before + word_items(part@));
            }
        }
        k += 1;
    }
    assert(runs.take(k as int) =~= runs);
    items
}

/// The tokens made of `items`: those that are not empty, in lowercase.
fn finish(items: &Vec<Vec<char>>) -> (tokens: Vec<String>)
    ensures
        tokens.deep_view() == tokens_of(views(items@)),
{
    let ghost all = views(items@);
    let mut tokens: Vec<String> = Vec::new();
    let mut k: usize = 0;
    assert(all.take(0) =~= Seq::empty());
    assert(tokens.deep_view() =~= tokens_of(all.take(0)));
    while k < items.len()
        invariant
            k <= items.len(),
            all == views(items@),
            tokens.deep_view() == tokens_of(all.take(k as int)),
        decreases items.len() - k,
    {
        let item = &items[k];
        let ghost before = tokens.deep_view();
        proof {
            let upto = all.take(k as int + 1);
            assert(upto.drop_last() =~= all.take(k as int));
            assert(upto.last() == item@);
        }
        if item.len() > 0 {
            tokens.push(lowercase(item));
            assert(tokens.deep_view() =~= before.push(lowercase_of(item@)));
            assert(tokens_of(all.take(k as int + 1)) =~= before.push(lowercase_of(item@)));
        }
        k += 1;
    }
    assert(all.take(k as int) =~= all);
    tokens
}

/// Cuts `text` into sentences of lowercase tokens.
pub fn format_input(text: &str) -> (sentences: Sentences)
    ensures
        sentences.deep_view() == sentences_of(text@),
{
    let chars = characters(text);
    let cleaned = keep(&chars);
    let pieces = split(&cleaned, '.');
    let ghost cut = views(pieces@).map_values(|piece: Seq<char>| sentence_items(piece));
    let mut sentences: Vec<Vec<String>> = Vec::new();
    let mut k: usize = 0;
    assert(cut.take(0) =~= Seq::empty());
    assert(sentences.deep_view() =~= without_empty(cut.take(0)).map_values(
        |items: Seq<Seq<char>>| tokens_of(items),
    ));
    while k < pieces.len()
        invariant
            k <= pieces.len(),
            cut == views(pieces@).map_values(|piece: Seq<char>| sentence_items(piece)),
            sentences.deep_view() == without_empty(cut.take(k as int)).map_values(
                |items: Seq<Seq<char>>| tokens_of(items),
            ),
        decreases pieces.len() - k,
    {
        let items = items_of(&pieces[k]);
        let ghost before = sentences.deep_view();
        proof {
            let upto = cut.take(k as int + 1);
            assert(upto.drop_last() =~= cut.take(k as int));
            assert(upto.last() == views(items@));
        }
        if items.len() > 0 {
            sentences.push(finish(&items));
            assert(sentences.deep_view() =~= before.push(tokens_of(views(items@))));
            assert(without_empty(cut.take(k as int + 1)).map_values(
                |items: Seq<Seq<char>>| tokens_of(items),
            ) =~= before.push(tokens_of(views(items@))));
        }
        k += 1;
    }
    assert(cut.take(k as int) =~= cut);
    sentences
}

} // verus!
