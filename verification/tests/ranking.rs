use word_freq::StopWords;
use word_freq::count_words;
use word_freq::rank;
use word_freq::top_words;

#[test]
fn top_two_of_the_example_text() {
    let stop = StopWords::standard();
    let wc = count_words("the cat sat on the mat the cat ran", &stop);
    let ranked = rank(&wc, 2);
    assert_eq!(ranked.len(), 2);
    assert_eq!(ranked[0].0, "cat");
    assert_eq!(ranked[0].1, 2);
    // the runner-up is one of the three words counted once
    assert_eq!(ranked[1].1, 1);
    assert!(["sat", "mat", "ran"].contains(&ranked[1].0.as_str()));
}

#[test]
fn including_stop_words_ranks_the_first() {
    let none = StopWords::none();
    let wc = count_words("the cat sat on the mat the cat ran", &none);
    let ranked = rank(&wc, 1);
    assert_eq!(ranked.len(), 1);
    assert_eq!(ranked[0].0, "the");
    assert_eq!(ranked[0].1, 3);
}

#[test]
fn ranked_length_is_the_smaller_of_n_and_distinct_words() {
    let stop = StopWords::standard();
    let wc = count_words("the cat sat on the mat the cat ran", &stop);
    // 4 distinct qualifying words
    assert_eq!(rank(&wc, 0).len(), 0);
    assert_eq!(rank(&wc, 2).len(), 2);
    assert_eq!(rank(&wc, 4).len(), 4);
    assert_eq!(rank(&wc, 10).len(), 4);
}

#[test]
fn ranked_counts_never_increase() {
    let stop = StopWords::standard();
    let wc = count_words("d d d d c c c b b e e f g g g g", &stop);
    let ranked = rank(&wc, 10);
    assert_eq!(ranked.len(), 6);
    let mut i = 1;
    while i < ranked.len() {
        assert!(ranked[i - 1].1 >= ranked[i].1);
        i += 1;
    }
    assert_eq!(ranked[0].1, 4);
    assert_eq!(ranked[5].1, 1);
}

#[test]
fn no_stop_word_is_ever_ranked() {
    let stop = StopWords::standard();
    let text = "the cat and the dog had a nap on the mat for a while";
    let wc = count_words(text, &stop);
    let ranked = rank(&wc, 100);
    let stop_list = [
        "the", "and", "a", "to", "of", "in", "it", "is", "that", "we", "with", "on", "had", "as",
        "but", "for", "not", "from", "at", "was",
    ];
    for (word, count) in ranked.iter() {
        assert!(!stop_list.contains(&word.as_str()));
        assert!(*count >= 1);
    }
    let none = StopWords::none();
    let all = count_words(text, &none);
    let ranked_all = rank(&all, 100);
    assert!(ranked_all.iter().any(|e| e.0 == "the"));
}

#[test]
fn top_words_runs_count_and_rank_together() {
    let stop = StopWords::standard();
    let r = top_words("the cat sat on the mat the cat ran", &stop, 2);
    assert_eq!(r.len(), 2);
    assert_eq!(r[0].0, "cat");
    assert_eq!(r[0].1, 2);
    assert_eq!(r[1].1, 1);
    let none = StopWords::none();
    let r_all = top_words("the cat sat on the mat the cat ran", &none, 1);
    assert_eq!(r_all, vec![("the".to_string(), 3)]);
}

#[test]
fn default_top_n_is_ten() {
    assert_eq!(word_freq::DEFAULT_TOP_N, 10);
}

#[test]
fn ranking_an_empty_count_is_empty() {
    let stop = StopWords::standard();
    let wc = count_words("the on at", &stop);
    assert_eq!(wc.len(), 0);
    assert_eq!(rank(&wc, 10).len(), 0);
}

#[test]
fn default_stop_words_are_recognized() {
    let stop = StopWords::standard();
    let words = [
        "the", "and", "a", "to", "of", "in", "it", "is", "that", "we", "with", "on", "had", "as",
        "but", "for", "not", "from", "at", "was",
    ];
    for w in words.iter() {
        assert!(stop.contains(&w.to_string()));
    }
    assert!(!stop.contains(&"cat".to_string()));
    assert!(!stop.contains(&"".to_string()));
    let none = StopWords::none();
    assert!(!none.contains(&"the".to_string()));
}
