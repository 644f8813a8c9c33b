//! Generated sentences as text for display.

use crate::text::characters;
use vstd::prelude::*;
use vstd::string::StringExecFns;

verus! {

/// The ASCII uppercase form of `c`: the letters `a` to `z` become `A` to
/// `Z`, every other character stays as it is.
pub open spec fn ascii_uppercase(c: char) -> char {
    if 'a' <= c <= 'z' {
        ((c as u8) - 32) as char
    } else {
        c
    }
}

/// The ASCII uppercase form of `c`.
pub fn to_ascii_uppercase(c: char) -> (upper: char)
    ensures
        upper == ascii_uppercase(c),
{
    if 'a' <= c && c <= 'z' {
        ((c as u8) - 32) as char
    } else {
        c
    }
}

/// `word` with its first character in ASCII uppercase.
pub open spec fn capitalized(word: Seq<char>) -> Seq<char> {
    if word.len() == 0 {
        word
    } else {
        word.update(0, ascii_uppercase(word[0]))
    }
}

/// What stands between a token and the text before it: nothing before a
/// comma, a space before anything else.
pub open spec fn gap_before(token: Seq<char>) -> Seq<char> {
    if token == seq![','] {
        Seq::empty()
    } else {
        seq![' ']
    }
}

/// The tokens in order, each after its gap.
pub open spec fn continued(tokens: Seq<Seq<char>>) -> Seq<char>
    decreases tokens.len(),
{
    if tokens.len() == 0 {
        Seq::empty()
    } else {
        continued(tokens.drop_last()) + gap_before(tokens.last()) + tokens.last()
    }
}

/// A sentence as text: its first token capitalized, then the other tokens,
/// each after a space, but a comma directly after the token before it.
pub open spec fn sentence_text(sentence: Seq<Seq<char>>) -> Seq<char> {
    capitalized(sentence[0]) + continued(sentence.skip(1))
}

/// `word` with its first character in ASCII uppercase.
pub fn capitalize(word: &str) -> (text: String)
    ensures
        text@ == capitalized(word@),
{
    let chars = characters(word);
    let mut text = String::new();
    let mut i: usize = 0;
    while i < chars.len()
        invariant
            i <= chars.len(),
            chars@ == word@,
            text@ == capitalized(word@).take(i as int),
        decreases chars.len() - i,
    {
        let c = chars[i];
        if i == 0 {
            text.push(to_ascii_uppercase(c));
        } else {
            text.push(c);
        }
        assert(capitalized(word@).take(i as int + 1) =~= capitalized(word@).take(i as int).push(
            capitalized(word@)[i as int],
        ));
        i += 1;
    }
    assert(capitalized(word@).take(i as int) =~= capitalized(word@));
    text
}

/// Renders one sentence for display. A sentence has at least one token.
pub fn render_sentence(sentence: &Vec<String>) -> (text: String)
    requires
        sentence.len() > 0,
    ensures
        text@ == sentence_text(sentence.deep_view()),
{
    let ghost tokens = sentence.deep_view();
    let comma = String::from_str(",");
    proof {
        reveal_strlit(",");
        assert(comma@ =~= seq![',']);
    }
    let mut text = capitalize(sentence[0].as_str());
    let mut k: usize = 1;
    assert(tokens.skip(1).take(0) =~= Seq::empty());
    assert(text@ =~= capitalized(tokens[0]) + continued(tokens.skip(1).take(0)));
    while k < sentence.len()
        invariant
            1 <= k <= sentence.len(),
            tokens == sentence.deep_view(),
            comma@ == seq![','],
            text@ == capitalized(tokens[0]) + continued(tokens.skip(1).take(k - 1)),
        decreases sentence.len() - k,
    {
        let token = &sentence[k];
        let ghost before = text@;
        proof {
            let upto = tokens.skip(1).take(k as int);
            assert(upto.drop_last() =~= tokens.skip(1).take(k - 1));
            assert(upto.last() == token@);
        }
        if *token != comma {
            text.push(' ');
        }
        text.append(token.as_str());
        assert(text@ =~= capitalized(tokens[0]) + (continued(tokens.skip(1).take(k - 1))
            + gap_before(token@) + token@));
        k += 1;
    }
    assert(tokens.skip(1).take(k - 1) =~= tokens.skip(1));
    text
}

} // verus!
