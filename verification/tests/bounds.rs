use markov_chain::bounds::parse_length_bounds;
use markov_chain::error::BoundsError;

#[test]
fn one_number_is_both_bounds() {
    assert_eq!(parse_length_bounds("20"), Ok((20, 20)));
    assert_eq!(parse_length_bounds("0"), Ok((0, 0)));
    assert_eq!(parse_length_bounds("+7"), Ok((7, 7)));
    assert_eq!(parse_length_bounds("007"), Ok((7, 7)));
}

#[test]
fn two_numbers_are_the_least_and_the_greatest() {
    assert_eq!(parse_length_bounds("5-10"), Ok((5, 10)));
    assert_eq!(parse_length_bounds("10-5"), Ok((10, 5)));
    assert_eq!(parse_length_bounds("3-3"), Ok((3, 3)));
}

#[test]
fn more_than_two_numbers_are_no_range() {
    assert_eq!(parse_length_bounds("1-2-3"), Err(BoundsError::InvalidRange));
    assert_eq!(parse_length_bounds("1-2-3-4"), Err(BoundsError::InvalidRange));
}

#[test]
fn every_part_has_to_be_a_number() {
    assert_eq!(parse_length_bounds(""), Err(BoundsError::NotANumber));
    assert_eq!(parse_length_bounds("abc"), Err(BoundsError::NotANumber));
    assert_eq!(parse_length_bounds("5-"), Err(BoundsError::NotANumber));
    assert_eq!(parse_length_bounds("-5"), Err(BoundsError::NotANumber));
    assert_eq!(parse_length_bounds("1-x-3"), Err(BoundsError::NotANumber));
    assert_eq!(parse_length_bounds(" 5"), Err(BoundsError::NotANumber));
    assert_eq!(parse_length_bounds("5_0"), Err(BoundsError::NotANumber));
    assert_eq!(parse_length_bounds("99999999999999999999999999"), Err(BoundsError::NotANumber));
}

#[test]
fn bounds_errors_describe_themselves() {
    assert_eq!(BoundsError::NotANumber.message(), "Invalid number");
    assert_eq!(BoundsError::InvalidRange.message(), "Invalid range");
}

fn number(text: &str) -> Option<usize> {
    markov_chain::text::parse_number(&text.chars().collect())
}

#[test]
fn numbers_are_decimal_digits_after_an_optional_plus() {
    assert_eq!(number("0"), Some(0));
    assert_eq!(number("42"), Some(42));
    assert_eq!(number("+42"), Some(42));
    assert_eq!(number("000123"), Some(123));
    assert_eq!(number(""), None);
    assert_eq!(number("+"), None);
    assert_eq!(number("++1"), None);
    assert_eq!(number("-1"), None);
    assert_eq!(number("1+"), None);
    assert_eq!(number("12a"), None);
    assert_eq!(number("١٢"), None);
}

#[test]
fn numbers_agree_with_the_standard_parser() {
    let greatest = format!("{}", usize::MAX);
    let mut texts = vec![greatest.clone(), format!("{}0", greatest), format!("{}", usize::MAX - 1)];
    let mut beyond: Vec<char> = greatest.chars().collect();
    let last = beyond.len() - 1;
    beyond[last] = (beyond[last] as u8 + 1) as char;
    texts.push(beyond.into_iter().collect());
    let others = ["", "+", "+0", "7", "+7", "-7", " 7", "7 ", "0x10", "1_000", "999999999999999999999"];
    for text in others {
        texts.push(text.to_string());
    }
    for text in texts {
        assert_eq!(number(&text), text.parse::<usize>().ok());
    }
    assert_eq!(number(&greatest), Some(usize::MAX));
}
