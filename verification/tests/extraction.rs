use gram_freq::grams::{extract_grams, Word};

fn word(s: &str) -> Word {
    Word::from_chars(s.chars().collect())
}

#[test]
fn bigrams() {
    let test = word("test");
    let result: Vec<Vec<char>> = vec![
        vec!['^', 't'],
        vec!['t', 'e'],
        vec!['e', 's'],
        vec!['s', 't'],
        vec!['t', '$'],
    ];
    let mut it = test.grams(2);
    let mut i = 0;
    while let Some(bigram) = it.next() {
        println!("{:?}", bigram);
        assert_eq!(result[i], bigram);
        i += 1;
    }
    assert_eq!(test.gram_count(2), result.len());
}

#[test]
fn trigrams() {
    let test = word("test");
    let result: Vec<Vec<char>> = vec![
        vec!['^', 't', 'e'],
        vec!['t', 'e', 's'],
        vec!['e', 's', 't'],
        vec!['s', 't', '$'],
    ];
    let mut it = test.grams(3);
    let mut i = 0;
    while let Some(trigram) = it.next() {
        println!("{:?}", trigram);
        assert_eq!(result[i], trigram);
        i += 1;
    }
    assert_eq!(test.gram_count(3), result.len());
}

#[test]
fn quadgrams() {
    let test = word("test");
    let result: Vec<Vec<char>> = vec![
        vec!['^', 't', 'e', 's'],
        vec!['t', 'e', 's', 't'],
        vec!['e', 's', 't', '$'],
    ];
    let mut it = test.grams(4);
    let mut i = 0;
    while let Some(quadgram) = it.next() {
        println!("{:?}", quadgram);
        assert_eq!(result[i], quadgram);
        i += 1;
    }
    assert_eq!(test.gram_count(4), result.len());
}

#[test]
fn one_char_trigram() {
    let test = word("a");
    let result: Vec<Vec<char>> = vec![vec!['^', 'a', '$']];
    let mut it = test.grams(3);
    let mut i = 0;
    while let Some(trigram) = it.next() {
        println!("{:?}", trigram);
        assert_eq!(result[i], trigram);
        i += 1;
    }
    assert_eq!(test.gram_count(3), result.len());
}

#[test]
fn one_char_quadgram() {
    let test = word("a");
    let mut it = test.grams(4);
    while let Some(_nothing) = it.next() {
        panic!("this iterator should yield nothing!");
    }
}

#[test]
fn extract_matches_count() {
    for s in ["", "a", "ab", "test", "abracadabra"] {
        for l in 1..7usize {
            let w = word(s);
            let grams = extract_grams(&w, l);
            assert_eq!(grams.len(), w.gram_count(l));
            let expected = (s.chars().count() + 2).saturating_sub(l - 1);
            assert_eq!(grams.len(), expected);
            for g in &grams {
                assert_eq!(g.len(), l);
            }
        }
    }
}

#[test]
fn empty_word_bigrams() {
    let w = word("");
    let grams = extract_grams(&w, 2);
    assert_eq!(grams, vec![vec!['^', '$']]);
    assert_eq!(w.gram_count(2), 1);
}

#[test]
fn padded_characters() {
    let w = word("ok");
    assert_eq!(w.len_with_stops(), 4);
    assert_eq!(w.char_at_with_stops(0), '^');
    assert_eq!(w.char_at_with_stops(1), 'o');
    assert_eq!(w.char_at_with_stops(2), 'k');
    assert_eq!(w.char_at_with_stops(3), '$');
}

#[test]
fn multibyte_characters_count_once() {
    let w = word("né");
    assert_eq!(w.len(), 2);
    let grams = extract_grams(&w, 2);
    assert_eq!(
        grams,
        vec![vec!['^', 'n'], vec!['n', 'é'], vec!['é', '$']]
    );
}
