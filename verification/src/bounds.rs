//! The bounds of a sentence's length as a user writes them: one number, or
//! the least and the greatest number with a hyphen between them.

use crate::error::BoundsError;
use crate::input::{lemma_split_on_is_not_empty, split, split_on, views};
use crate::text::{characters, number_of, parse_number};
use vstd::prelude::*;

verus! {

/// Whether every part writes a number.
pub open spec fn all_numbers(parts: Seq<Seq<char>>) -> bool {
    forall|k: int| 0 <= k < parts.len() ==> (#[trigger] number_of(parts[k])) is Some
}

/// The bounds that `text` writes. A single number is both bounds. Every
/// part between hyphens has to be a number, and then there may be no more
/// than two of them.
pub open spec fn length_bounds_of(text: Seq<char>) -> Result<(usize, usize), BoundsError> {
    let parts = split_on(text, '-');
    if !all_numbers(parts) {
        Err(BoundsError::NotANumber)
    } else if parts.len() == 1 {
        Ok((number_of(parts[0])->0, number_of(parts[0])->0))
    } else if parts.len() == 2 {
        Ok((number_of(parts[0])->0, number_of(parts[1])->0))
    } else {
        Err(BoundsError::InvalidRange)
    }
}

/// Reads the bounds of a sentence's length: `20` for exactly twenty, `5-10`
/// for five to ten.
pub fn parse_length_bounds(text: &str) -> (bounds: Result<(usize, usize), BoundsError>)
    ensures
        bounds == length_bounds_of(text@),
{
    let chars = characters(text);
    let parts = split(&chars, '-');
    let ghost written = split_on(text@, '-');
    let mut numbers: Vec<usize> = Vec::new();
    let mut k: usize = 0;
    while k < parts.len()
        invariant
            k <= parts.len(),
            written == views(parts@),
            written == split_on(text@, '-'),
            numbers.len() == k,
            forall|i: int| 0 <= i < k ==> #[trigger] number_of(written[i]) == Some(numbers[i]),
        decreases parts.len() - k,
    {
        assert(parts[k as int]@ == written[k as int]);
        match parse_number(&parts[k]) {
            Some(number) => {
                numbers.push(number);
            },
            None => {
                assert(number_of(written[k as int]) is None);
                return Err(BoundsError::NotANumber);
            },
        }
        k += 1;
    }
    assert(all_numbers(written));
    if numbers.len() == 1 {
        Ok((numbers[0], numbers[0]))
    } else if numbers.len() == 2 {
        Ok((numbers[0], numbers[1]))
    } else {
        proof {
            lemma_split_on_is_not_empty(text@, '-');
        }
        Err(BoundsError::InvalidRange)
    }
}

} // verus!
