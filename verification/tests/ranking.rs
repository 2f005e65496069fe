use gram_freq::grams::Word;
use gram_freq::rank::{composite_rank_key, rank};
use gram_freq::table::{build_gram_freq_table, CorpusEntry, FreqTable};

fn word(s: &str) -> Word {
    Word::from_chars(s.chars().collect())
}

fn words(ss: &[&str]) -> Vec<Word> {
    ss.iter().map(|s| word(s)).collect()
}

fn tables(corpus: &[(&str, u64)], lengths: &[usize]) -> Vec<(usize, FreqTable)> {
    let corpus: Vec<CorpusEntry> = corpus
        .iter()
        .map(|&(s, n)| CorpusEntry { word: word(s), weight: n })
        .collect();
    lengths
        .iter()
        .map(|&l| (l, build_gram_freq_table(&corpus, l)))
        .collect()
}

#[test]
fn composite_key_exact_values() {
    let ts = tables(&[("ab", 5)], &[2, 3]);
    // Raw scores for "ab": 15 at length 2 and 10 at length 3;
    // window counts: 3 and 2.
    let k = composite_rank_key(&word("ab"), &ts);
    assert_eq!(k.score, 25);
    assert_eq!(k.windows, 5);
    let k0 = composite_rank_key(&word("xy"), &ts);
    assert_eq!(k0.score, 0);
    assert_eq!(k0.windows, 5);
}

#[test]
fn zero_window_word_gets_zero_key() {
    let ts = tables(&[("abcd", 7)], &[4]);
    // "a" has padded length 3, so no window of length 4 fits.
    let k = composite_rank_key(&word("a"), &ts);
    assert_eq!(k.windows, 0);
    assert_eq!(k.score, 0);
    // It ranks below a word with a positive key and is not an error.
    let r = rank(words(&["a", "abcd"]), &ts);
    assert_eq!(r, words(&["abcd", "a"]));
}

#[test]
fn descending_by_normalized_score() {
    let ts = tables(&[("ab", 12)], &[2]);
    // Keys: "ab" scores 36 over 3 windows; "aab" also scores 36 (its [a,a]
    // window is unseen) but over 4 windows; "xy" scores 0.
    let r = rank(words(&["xy", "aab", "ab"]), &ts);
    assert_eq!(r, words(&["ab", "aab", "xy"]));
}

#[test]
fn ranking_is_deterministic() {
    let corpus: &[(&str, u64)] = &[("violin", 40), ("violence", 30), ("happy", 20), ("sad", 10)];
    let list = ["boorish", "dslkdsflkjf", "vioghem", "violin", "violence", "abracadabra", "happy", "sad"];
    let ts1 = tables(corpus, &[2, 3]);
    let ts2 = tables(corpus, &[2, 3]);
    let r1 = rank(words(&list), &ts1);
    let r2 = rank(words(&list), &ts2);
    assert_eq!(r1, r2);
}

#[test]
fn ties_keep_input_order() {
    let ts = tables(&[("ab", 5)], &[2]);
    // "pq" and "xy" both score 0 over 3 windows: an exact tie.
    let r = rank(words(&["pq", "xy", "ab"]), &ts);
    assert_eq!(r, words(&["ab", "pq", "xy"]));
    let r2 = rank(words(&["xy", "pq", "ab"]), &ts);
    assert_eq!(r2, words(&["ab", "xy", "pq"]));
}

#[test]
fn unseen_words_rank_at_bottom() {
    // A corpus skewed towards "ab": words made of its bigrams rank high,
    // words whose grams are all unseen rank at the bottom.
    let ts = tables(&[("ab", 100), ("cd", 1)], &[2]);
    let r = rank(words(&["zz", "cd", "ab"]), &ts);
    assert_eq!(r, words(&["ab", "cd", "zz"]));
}

#[test]
fn empty_word_list() {
    let ts = tables(&[("ab", 5)], &[2]);
    let r = rank(Vec::new(), &ts);
    assert!(r.is_empty());
}
