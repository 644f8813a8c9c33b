use markov_chain::display::{capitalize, render_sentence};

fn words(items: &[&str]) -> Vec<String> {
    items.iter().map(|w| w.to_string()).collect()
}

#[test]
fn the_first_letter_is_capitalized() {
    assert_eq!(capitalize("hello"), "Hello");
    assert_eq!(capitalize("Hello"), "Hello");
    assert_eq!(capitalize("a"), "A");
    assert_eq!(capitalize("zebra"), "Zebra");
    assert_eq!(capitalize(""), "");
    assert_eq!(capitalize(",x"), ",x");
    assert_eq!(capitalize("école"), "école");
}

#[test]
fn tokens_are_joined_by_spaces() {
    assert_eq!(render_sentence(&words(&["the", "cat", "sat"])), "The cat sat");
    assert_eq!(render_sentence(&words(&["alone"])), "Alone");
}

#[test]
fn a_comma_follows_its_word_directly() {
    assert_eq!(render_sentence(&words(&["well", ",", "yes", ",", "no"])), "Well, yes, no");
    assert_eq!(render_sentence(&words(&[",", ",", "a,b", ",,"])), ",, a,b ,,");
}

#[test]
fn ascii_uppercase_agrees_with_the_standard_one() {
    for code in 0u32..0x250 {
        let c = char::from_u32(code).unwrap();
        assert_eq!(markov_chain::display::to_ascii_uppercase(c), c.to_ascii_uppercase());
    }
    assert_eq!(markov_chain::display::to_ascii_uppercase('q'), 'Q');
    assert_eq!(markov_chain::display::to_ascii_uppercase('ß'), 'ß');
}
