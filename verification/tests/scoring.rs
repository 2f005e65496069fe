use gram_freq::grams::Word;
use gram_freq::table::{build_gram_freq_table, score_word, CorpusEntry, FreqTable};

fn word(s: &str) -> Word {
    Word::from_chars(s.chars().collect())
}

fn entry(s: &str, weight: u64) -> CorpusEntry {
    CorpusEntry { word: word(s), weight }
}

fn table(corpus: &[(&str, u64)], gram_length: usize) -> FreqTable {
    let corpus: Vec<CorpusEntry> = corpus.iter().map(|&(s, n)| entry(s, n)).collect();
    build_gram_freq_table(&corpus, gram_length)
}

#[test]
fn single_entry_bigram_table() {
    let t = table(&[("ab", 5)], 2);
    assert_eq!(t.get(&vec!['^', 'a']), 5);
    assert_eq!(t.get(&vec!['a', 'b']), 5);
    assert_eq!(t.get(&vec!['b', '$']), 5);
    assert_eq!(t.get(&vec!['b', 'a']), 0);
    assert_eq!(t.total_weight(), 15);
}

#[test]
fn score_present_and_absent() {
    let t = table(&[("ab", 5)], 2);
    assert_eq!(score_word(&word("ab"), 2, &t), 15);
    // "ba" windows are [^,b],[b,a],[a,$]: none present, so the score is 0.
    assert_eq!(score_word(&word("ba"), 2, &t), 0);
}

#[test]
fn score_empty_gram_sequence_is_zero() {
    let t = table(&[("ab", 5)], 4);
    assert_eq!(score_word(&word("a"), 4, &t), 0);
}

#[test]
fn duplicate_entries_accumulate() {
    let t = table(&[("ab", 5), ("ab", 2)], 2);
    assert_eq!(t.get(&vec!['a', 'b']), 7);
    assert_eq!(score_word(&word("ab"), 2, &t), 21);
}

#[test]
fn repeated_gram_within_word_counts_twice() {
    // "aba" at window length 1 yields the window [a] twice.
    let t = table(&[("aba", 3)], 1);
    assert_eq!(t.get(&vec!['a']), 6);
    assert_eq!(t.get(&vec!['b']), 3);
    assert_eq!(t.get(&vec!['^']), 3);
    assert_eq!(t.get(&vec!['$']), 3);
}

#[test]
fn zero_weight_entry_keeps_key() {
    let t = table(&[("ab", 0)], 2);
    assert_eq!(t.get(&vec!['a', 'b']), 0);
    assert_eq!(t.total_weight(), 0);
}

#[test]
fn table_mass_equals_corpus_mass() {
    // "ab" has 3 bigram windows, "b" has 2: 5 * 3 + 3 * 2 = 21.
    let t2 = table(&[("ab", 5), ("b", 3)], 2);
    assert_eq!(t2.total_weight(), 21);
    // "ab" has 2 trigram windows, "b" has 1: 5 * 2 + 3 * 1 = 13.
    let t3 = table(&[("ab", 5), ("b", 3)], 3);
    assert_eq!(t3.total_weight(), 13);
    // A window longer than every padded word accumulates nothing.
    let t9 = table(&[("ab", 5), ("b", 3)], 9);
    assert_eq!(t9.total_weight(), 0);
}
