use word_freq::StopWords;
use word_freq::count_words;
use word_freq::tokenize;

#[test]
fn tokenize_splits_on_whitespace_runs() {
    let toks = tokenize("the cat  sat\n on\tthe mat\r\nran");
    let expected: Vec<String> = vec![
        "the".to_string(),
        "cat".to_string(),
        "sat".to_string(),
        "on".to_string(),
        "the".to_string(),
        "mat".to_string(),
        "ran".to_string(),
    ];
    assert_eq!(toks, expected);
}

#[test]
fn tokenize_empty_text_gives_no_tokens() {
    assert_eq!(tokenize(""), Vec::<String>::new());
    assert_eq!(tokenize("   \t\n  "), Vec::<String>::new());
}

#[test]
fn tokenize_without_trailing_separator_keeps_last_token() {
    let toks = tokenize("one two");
    assert_eq!(toks, vec!["one".to_string(), "two".to_string()]);
}

#[test]
fn counts_with_default_stop_words() {
    let stop = StopWords::standard();
    let wc = count_words("the cat sat on the mat the cat ran", &stop);
    assert_eq!(wc.count_of(&"cat".to_string()), 2);
    assert_eq!(wc.count_of(&"sat".to_string()), 1);
    assert_eq!(wc.count_of(&"mat".to_string()), 1);
    assert_eq!(wc.count_of(&"ran".to_string()), 1);
    assert_eq!(wc.count_of(&"the".to_string()), 0);
    assert_eq!(wc.count_of(&"on".to_string()), 0);
    assert_eq!(wc.len(), 4);
}

#[test]
fn total_mass_equals_qualifying_token_count() {
    let stop = StopWords::standard();
    let wc = count_words("the cat sat on the mat the cat ran", &stop);
    // qualifying tokens: cat sat mat cat ran
    assert_eq!(wc.total(), 5);
    let none = StopWords::none();
    let all = count_words("the cat sat on the mat the cat ran", &none);
    assert_eq!(all.total(), 9);
}

#[test]
fn counting_lowercases_words() {
    let none = StopWords::none();
    let wc = count_words("The THE the tHe", &none);
    assert_eq!(wc.len(), 1);
    assert_eq!(wc.count_of(&"the".to_string()), 4);
    assert_eq!(wc.count_of(&"The".to_string()), 0);
}

#[test]
fn uppercase_stop_words_are_filtered() {
    let stop = StopWords::standard();
    let wc = count_words("The THE Cat", &stop);
    assert_eq!(wc.count_of(&"the".to_string()), 0);
    assert_eq!(wc.count_of(&"cat".to_string()), 1);
    assert_eq!(wc.len(), 1);
}

#[test]
fn empty_text_counts_nothing() {
    let stop = StopWords::standard();
    let wc = count_words("", &stop);
    assert_eq!(wc.len(), 0);
    assert_eq!(wc.total(), 0);
}

#[test]
fn files_are_counted_independently() {
    let stop = StopWords::standard();
    let wc_a = count_words("apple apple pear", &stop);
    let wc_b = count_words("banana", &stop);
    assert_eq!(wc_a.count_of(&"banana".to_string()), 0);
    assert_eq!(wc_b.count_of(&"apple".to_string()), 0);
    assert_eq!(wc_a.count_of(&"apple".to_string()), 2);
    assert_eq!(wc_b.count_of(&"banana".to_string()), 1);
}

#[test]
fn counting_twice_gives_the_same_pairs() {
    let stop = StopWords::standard();
    let text = "to be or not to be that is the question be";
    let first = count_words(text, &stop);
    let second = count_words(text, &stop);
    let mut pairs_a: Vec<(String, usize)> = Vec::new();
    let mut i = 0;
    while i < first.len() {
        pairs_a.push(first.entry(i));
        i += 1;
    }
    let mut pairs_b: Vec<(String, usize)> = Vec::new();
    let mut j = 0;
    while j < second.len() {
        pairs_b.push(second.entry(j));
        j += 1;
    }
    pairs_a.sort();
    pairs_b.sort();
    assert_eq!(pairs_a, pairs_b);
}
