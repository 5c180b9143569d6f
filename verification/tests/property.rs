use rusty_gematria::cipher;
use rusty_gematria::textee;

#[test]
fn english_value_always_positive_for_alphabetic_input() {
    let words = vec![
        "a", "z", "hello", "world", "andrei", "michael",
        "rust", "gematria", "yeshua", "israel", "romania",
    ];
    for word in words {
        let g = cipher::calculate(word);
        assert!(g.english > 0, "english value should be positive for '{}'", word);
    }
}

#[test]
fn simple_value_equals_sum_of_positions() {
    // a=1 n=14 d=4 r=18 e=5 i=9 = 51
    let g = cipher::calculate("andrei");
    assert_eq!(g.simple, 51, "simple value for andrei should be 51");
}

#[test]
fn english_value_is_multiple_of_six() {
    let words = vec!["andrei", "michael", "rust", "hello", "world"];
    for word in words {
        let g = cipher::calculate(word);
        assert_eq!(
            g.english % 6, 0,
            "english value for '{}' should be divisible by 6", word
        );
    }
}

#[test]
fn textee_limit_is_always_respected() {
    let input = "this is a long sentence with many words in it";
    for limit in 1..=6 {
        let phrases = textee::extract(input, limit);
        for phrase in &phrases {
            assert!(
                phrase.word_count <= limit,
                "phrase word count {} should not exceed limit {}",
                phrase.word_count, limit
            );
        }
    }
}

#[test]
fn textee_produces_single_words() {
    let input = "andrei michael";
    let phrases = textee::extract(input, 3);
    let texts: Vec<&str> = phrases.iter().map(|p| p.text.as_str()).collect();
    assert!(texts.contains(&"andrei"), "should contain single word andrei");
    assert!(texts.contains(&"michael"), "should contain single word michael");
}

#[test]
fn cipher_is_case_insensitive() {
    let lower = cipher::calculate("andrei");
    let upper = cipher::calculate("ANDREI");
    let mixed = cipher::calculate("AnDrEi");
    assert_eq!(lower.english, upper.english, "case should not affect english value");
    assert_eq!(lower.english, mixed.english, "case should not affect english value");
}

#[test]
fn empty_input_produces_zero_values() {
    let g = cipher::calculate("");
    assert_eq!(g.english,  0, "empty input should produce zero english");
    assert_eq!(g.simple,   0, "empty input should produce zero simple");
    assert_eq!(g.jewish,   0, "empty input should produce zero jewish");
    assert_eq!(g.mystery,  0, "empty input should produce zero mystery");
    assert_eq!(g.majestic, 0, "empty input should produce zero majestic");
    assert_eq!(g.eights,   0, "empty input should produce zero eights");
}

#[test]
fn spaces_do_not_affect_cipher_values() {
    let with_spaces    = cipher::calculate("and rei");
    let without_spaces = cipher::calculate("andrei");
    assert_eq!(
        with_spaces.english,
        without_spaces.english,
        "spaces should not affect english value"
    );
}

#[test]
fn english_is_six_times_simple_for_ascii() {
    for word in ["andrei", "Michael", "rust in peace", "HELLO world 42"] {
        let g = cipher::calculate(word);
        assert_eq!(g.english, 6 * g.simple);
    }
}

#[test]
fn every_cipher_positive_for_letters() {
    for word in ["a", "Z", "qwerty", "Gematria"] {
        let g = cipher::calculate(word);
        assert!(g.english > 0 && g.jewish > 0 && g.simple > 0);
        assert!(g.mystery > 0 && g.majestic > 0 && g.eights > 0);
    }
}

#[test]
fn space_between_words_changes_no_cipher() {
    let a = cipher::calculate("peace love");
    let b = cipher::calculate("peacelove");
    assert_eq!((a.english, a.jewish, a.simple), (b.english, b.jewish, b.simple));
    assert_eq!((a.mystery, a.majestic, a.eights), (b.mystery, b.majestic, b.eights));
}

#[test]
fn values_add_up_over_concatenation() {
    let a = cipher::calculate("peace");
    let b = cipher::calculate("Love");
    let ab = cipher::calculate("peaceLove");
    assert_eq!(ab.english, a.english + b.english);
    assert_eq!(ab.jewish, a.jewish + b.jewish);
    assert_eq!(ab.mystery, a.mystery + b.mystery);
    assert_eq!(ab.eights, a.eights + b.eights);
}

#[test]
fn order_of_parts_does_not_matter() {
    let a = cipher::calculate("lovepeace");
    let b = cipher::calculate("peacelove");
    assert_eq!((a.english, a.jewish, a.simple), (b.english, b.jewish, b.simple));
    assert_eq!((a.mystery, a.majestic, a.eights), (b.mystery, b.majestic, b.eights));
}

#[test]
fn punctuation_and_digits_add_nothing() {
    let plain = cipher::calculate("andrei");
    for s in ["and-rei", "and7rei", "and!rei", "and\trei"] {
        let g = cipher::calculate(s);
        assert_eq!((g.english, g.jewish, g.simple), (plain.english, plain.jewish, plain.simple));
        assert_eq!((g.mystery, g.majestic, g.eights), (plain.mystery, plain.majestic, plain.eights));
    }
}

#[test]
fn english_positive_exactly_with_a_letter() {
    assert_eq!(cipher::calculate("123 !?").english, 0);
    assert!(cipher::calculate("123 a").english > 0);
}
