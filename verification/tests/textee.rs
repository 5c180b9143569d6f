use rusty_gematria::textee::{extract, join_strings};

#[test]
fn extracts_single_words() {
    let phrases = extract("this is a", 3);
    let texts: Vec<&str> = phrases.iter().map(|p| p.text.as_str()).collect();
    assert!(texts.contains(&"this"));
    assert!(texts.contains(&"is"));
    assert!(texts.contains(&"a"));
}

#[test]
fn extracts_two_word_phrases() {
    let phrases = extract("this is a", 3);
    let texts: Vec<&str> = phrases.iter().map(|p| p.text.as_str()).collect();
    assert!(texts.contains(&"this is"));
    assert!(texts.contains(&"is a"));
}

#[test]
fn extracts_three_word_phrases() {
    let phrases = extract("this is a", 3);
    let texts: Vec<&str> = phrases.iter().map(|p| p.text.as_str()).collect();
    assert!(texts.contains(&"this is a"));
}

#[test]
fn limit_controls_max_phrase_length() {
    let phrases = extract("this is a long", 2);
    assert!(phrases.iter().all(|p| p.word_count <= 2));
}

#[test]
fn empty_input_returns_empty() {
    let phrases = extract("", 3);
    assert!(phrases.is_empty());
}

#[test]
fn limit_zero_returns_empty() {
    let phrases = extract("this is a", 0);
    assert!(phrases.is_empty());
}

#[test]
fn windows_come_by_start_then_length() {
    let phrases = extract("a  b\tc\n", 2);
    let got: Vec<(&str, usize, usize)> =
        phrases.iter().map(|p| (p.text.as_str(), p.word_start, p.word_count)).collect();
    assert_eq!(
        got,
        vec![("a", 0, 1), ("a b", 0, 2), ("b", 1, 1), ("b c", 1, 2), ("c", 2, 1)]
    );
}

#[test]
fn whitespace_only_input_returns_empty() {
    assert!(extract("   \t ", 3).is_empty());
}

#[test]
fn large_limit_gives_every_window() {
    // 4 words: 4 + 3 + 2 + 1 windows
    assert_eq!(extract("one two three four", 100).len(), 10);
}

#[test]
fn join_strings_puts_single_spaces() {
    let words = vec!["a".to_string(), "bc".to_string(), "d".to_string()];
    assert_eq!(join_strings(&words), "a bc d");
    assert_eq!(join_strings(&Vec::new()), "");
}

#[test]
fn unicode_spaces_separate_words() {
    let phrases = extract("a\u{3000}b\u{a0}c\u{2009}d", 1);
    let texts: Vec<&str> = phrases.iter().map(|p| p.text.as_str()).collect();
    assert_eq!(texts, vec!["a", "b", "c", "d"]);
}

#[test]
fn raising_the_limit_only_adds_longer_phrases() {
    let s = "one two three four five";
    let short = extract(s, 2);
    let long: Vec<_> = extract(s, 4).into_iter().filter(|p| p.word_count <= 2).collect();
    assert_eq!(short.len(), long.len());
    for (a, b) in short.iter().zip(long.iter()) {
        assert_eq!((a.text.as_str(), a.word_start, a.word_count), (b.text.as_str(), b.word_start, b.word_count));
    }
    let all = extract(s, 5);
    assert_eq!(extract(s, 50).len(), all.len());
}

#[test]
fn spacing_does_not_change_phrases() {
    let a = extract("  michael \t andrei\n\nlove ", 3);
    let b = extract("michael andrei love", 3);
    let ta: Vec<(&str, usize, usize)> = a.iter().map(|p| (p.text.as_str(), p.word_start, p.word_count)).collect();
    let tb: Vec<(&str, usize, usize)> = b.iter().map(|p| (p.text.as_str(), p.word_start, p.word_count)).collect();
    assert_eq!(ta, tb);
}
