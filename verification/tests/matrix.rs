use rusty_gematria::cipher::calculate;
use rusty_gematria::dictionary::all_words;
use rusty_gematria::matrix::{Cipher, Matrix};

#[test]
fn matrix_builds_without_panic() {
    let m = Matrix::build();
    assert!(m.word_count() > 0, "matrix should contain words");
}

#[test]
fn matrix_andrei_equals_306_english() {
    let result = calculate("andrei");
    assert_eq!(result.english, 306);
}

#[test]
fn michael_found_at_306_english() {
    let m = Matrix::build();
    let words = m.lookup(&Cipher::English, 306);
    assert!(
        words.iter().any(|w| w == "michael"),
        "michael should be found at English value 306"
    );
}

#[test]
fn empty_result_for_impossible_value() {
    let m = Matrix::build();
    let words = m.lookup(&Cipher::English, u64::MAX);
    assert!(words.is_empty(), "impossible value should return empty");
}

#[test]
fn word_count_counts_every_dictionary_word() {
    let m = Matrix::build();
    assert_eq!(m.word_count(), all_words().len());
}

#[test]
fn words_with_diacritics_are_found() {
    let m = Matrix::build();
    for w in ["pământ", "corazón", "lumière", "cœur"] {
        let g = calculate(w);
        assert!(m.lookup(&Cipher::English, g.english).iter().any(|x| x == w), "{}", w);
    }
}

#[test]
fn every_word_is_found_under_every_cipher() {
    let m = Matrix::build();
    let ciphers = [Cipher::English, Cipher::Jewish, Cipher::Simple, Cipher::Mystery, Cipher::Majestic, Cipher::Eights];
    for w in all_words() {
        let g = calculate(w);
        for c in &ciphers {
            let found = m.lookup(c, g.value(c)).iter().any(|x| x == w);
            assert!(found, "{} under {:?}", w, c);
        }
    }
}

#[test]
fn every_looked_up_word_has_the_value() {
    let m = Matrix::build();
    for v in [0u64, 306, 522, 1000] {
        for w in m.lookup(&Cipher::Simple, v) {
            assert_eq!(calculate(w).simple, v);
        }
    }
}

#[test]
fn lookup_keeps_dictionary_order() {
    let m = Matrix::build();
    let g = calculate("love");
    let expected: Vec<&str> = all_words()
        .into_iter()
        .filter(|w| calculate(w).english == g.english)
        .collect();
    let got: Vec<&str> = m.lookup(&Cipher::English, g.english).iter().map(|s| s.as_str()).collect();
    assert_eq!(got, expected);
}

#[test]
fn bucket_sizes_add_up_to_word_count() {
    let m = Matrix::build();
    let ciphers = [Cipher::English, Cipher::Jewish, Cipher::Simple, Cipher::Mystery, Cipher::Majestic, Cipher::Eights];
    for c in &ciphers {
        let mut values: Vec<u64> = all_words().iter().map(|w| calculate(w).value(c)).collect();
        values.sort();
        values.dedup();
        let total: usize = values.iter().map(|v| m.lookup(c, *v).len()).sum();
        assert_eq!(total, m.word_count());
    }
}

#[test]
fn buckets_of_every_cipher_hold_the_same_words() {
    let m = Matrix::build();
    let ciphers = [Cipher::English, Cipher::Jewish, Cipher::Simple, Cipher::Mystery, Cipher::Majestic, Cipher::Eights];
    let mut expected: Vec<String> = all_words().iter().map(|w| w.to_string()).collect();
    expected.sort();
    for c in &ciphers {
        let mut values: Vec<u64> = all_words().iter().map(|w| calculate(w).value(c)).collect();
        values.sort();
        values.dedup();
        let mut held: Vec<String> = Vec::new();
        for v in &values {
            held.extend(m.lookup(c, *v).iter().cloned());
        }
        held.sort();
        assert_eq!(held, expected, "{:?}", c);
    }
}
