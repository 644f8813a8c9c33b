use markov_chain::input::format_input;

fn sentence(items: &[&str]) -> Vec<String> {
    items.iter().map(|w| w.to_string()).collect()
}

#[test]
fn sentences_end_at_full_stops() {
    let got = format_input("The cat sat. The dog ran.");
    assert_eq!(got, vec![sentence(&["the", "cat", "sat"]), sentence(&["the", "dog", "ran"])]);
}

#[test]
fn trailing_commas_become_a_token() {
    let got = format_input("Well, yes,, no");
    assert_eq!(got, vec![sentence(&["well", ",", "yes", ",", "no"])]);
}

#[test]
fn a_word_of_commas_gives_one_comma() {
    let got = format_input("a , b");
    assert_eq!(got, vec![sentence(&["a", ",", "b"])]);
}

#[test]
fn inner_commas_stay_in_the_word() {
    let got = format_input("a,b c");
    assert_eq!(got, vec![sentence(&["a,b", "c"])]);
}

#[test]
fn other_characters_are_dropped() {
    let got = format_input("It's 42 o'clock!\nNew-line?");
    assert_eq!(got, vec![sentence(&["its", "oclockNewline".to_lowercase().as_str()])]);
}

#[test]
fn pieces_without_words_are_no_sentences() {
    assert_eq!(format_input(""), Vec::<Vec<String>>::new());
    assert_eq!(format_input(" . .. "), Vec::<Vec<String>>::new());
    assert_eq!(format_input("a..b"), vec![sentence(&["a"]), sentence(&["b"])]);
}

#[test]
fn words_are_lowercased_beyond_ascii() {
    let got = format_input("ÉCOLE Straße");
    assert_eq!(got, vec![sentence(&["école", "straße"])]);
}

#[test]
fn text_is_cut_at_a_separator() {
    let chars: Vec<char> = "a..bc.".chars().collect();
    let pieces = markov_chain::input::split(&chars, '.');
    assert_eq!(pieces, vec![vec!['a'], vec![], vec!['b', 'c'], vec![]]);
    assert_eq!(markov_chain::input::split(&vec![], '.'), vec![Vec::<char>::new()]);
}

#[test]
fn commas_are_trimmed_from_the_end_only() {
    let trim = |text: &str| -> String {
        markov_chain::input::trim(&text.chars().collect()).into_iter().collect()
    };
    assert_eq!(trim("word,,"), "word");
    assert_eq!(trim(",a,b"), ",a,b");
    assert_eq!(trim(",,"), "");
    assert_eq!(trim(""), "");
}

#[test]
fn each_word_gives_two_items() {
    let items = markov_chain::input::items_of(&"hi,  you ,".chars().collect());
    let texts: Vec<String> = items.into_iter().map(|item| item.into_iter().collect()).collect();
    assert_eq!(texts, vec!["hi", ",", "you", "", "", ","]);
}

#[test]
fn characters_and_text_are_inverse() {
    let chars = markov_chain::text::characters("héllo");
    assert_eq!(chars, vec!['h', 'é', 'l', 'l', 'o']);
    assert_eq!(markov_chain::text::text_of(&chars), "héllo");
    assert_eq!(markov_chain::text::lowercase(&vec!['A', 'b', 'Σ']), "abς");
}

#[test]
fn a_chain_is_estimated_from_formatted_text() {
    let chain = markov_chain::markov::MarkovChain::from_grouped_data(format_input("A b a. A c."));
    assert_eq!(chain.tokens(), &sentence(&["a", "b", "c"])[..]);
    assert_eq!(chain.matrix(), &[0, 1, 1, 1, 0, 0, 1, 1, 1][..]);
    assert_eq!(chain.row_totals(), &[2, 1, 3][..]);
    assert_eq!(chain.first_tokens(), &[0][..]);
}
