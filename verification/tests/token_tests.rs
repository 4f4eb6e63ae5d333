use rustygenmo::token::{clean_word, create_corpus, tokens_to_text};

#[test]
fn clean_word_lowercases_and_strips() {
    assert_eq!(clean_word("Hello!"), "hello");
    assert_eq!(clean_word("...Word..."), "word");
    assert_eq!(clean_word("cat"), "cat");
}

#[test]
fn upper_and_lower_i_normalize_alike() {
    assert_eq!(clean_word("I"), "i");
    assert_eq!(clean_word("i"), "i");
}

#[test]
fn double_quotes_collapse() {
    assert_eq!(clean_word("''quoted''"), "quoted");
    assert_eq!(clean_word("don''t"), "don\"t");
}

#[test]
fn interior_punctuation_is_kept() {
    // Only leading and trailing non-alphabetic characters are stripped.
    assert_eq!(clean_word("don't"), "don't");
}

#[test]
fn corpus_splits_on_whitespace_and_dots() {
    let toks = create_corpus("The cat sat. The cat ran.");
    assert_eq!(toks, vec!["the", "cat", "sat", "the", "cat", "ran"]);
}

#[test]
fn short_tokens_drop_except_i() {
    let toks = create_corpus("a i I b cc");
    assert_eq!(toks, vec!["i", "i", "cc"]);
}

#[test]
fn empty_text_has_no_tokens() {
    assert_eq!(create_corpus(""), Vec::<String>::new());
    assert_eq!(create_corpus(" .. .  "), Vec::<String>::new());
}

#[test]
fn tokens_to_text_joins_with_spaces() {
    let toks = vec![String::from("a"), String::from("b"), String::from("c")];
    assert_eq!(tokens_to_text(&toks), "a b c");
    assert_eq!(tokens_to_text(&Vec::new()), "");
}

#[test]
fn tokenizing_is_idempotent() {
    let samples = [
        "The cat sat. The cat ran.",
        "  odd   spacing...and DOTS.everywhere  ",
        "I don't know, really!",
        "''begin'' and ''end''",
        "a lone i survives",
        "",
    ];
    for s in samples.iter() {
        let once = create_corpus(s);
        let text = tokens_to_text(&once);
        let twice = create_corpus(&text);
        assert_eq!(once, twice);
    }
}
