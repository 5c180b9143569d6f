use rusty_gematria::dictionary::{all_words, words, Language};

#[test]
fn english_dictionary_loads() {
    let w = words(&Language::English);
    assert!(!w.is_empty(), "english dictionary should not be empty");
}

#[test]
fn all_languages_load() {
    let w = all_words();
    assert!(!w.is_empty(), "combined dictionary should not be empty");
}

#[test]
fn language_from_flag() {
    assert_eq!(Language::from_flag("en"), Some(Language::English));
    assert_eq!(Language::from_flag("ro"), Some(Language::Romanian));
    assert_eq!(Language::from_flag("xx"), None);
}

#[test]
fn language_from_long_flags() {
    assert_eq!(Language::from_flag("english"), Some(Language::English));
    assert_eq!(Language::from_flag("spanish"), Some(Language::Spanish));
    assert_eq!(Language::from_flag("es"), Some(Language::Spanish));
    assert_eq!(Language::from_flag("romanian"), Some(Language::Romanian));
    assert_eq!(Language::from_flag("fr"), Some(Language::French));
    assert_eq!(Language::from_flag("french"), Some(Language::French));
    assert_eq!(Language::from_flag("EN"), None);
    assert_eq!(Language::from_flag(""), None);
}

#[test]
fn words_are_trimmed_and_non_empty() {
    for lang in [Language::English, Language::Spanish, Language::Romanian, Language::French] {
        for w in words(&lang) {
            assert!(!w.is_empty());
            assert_eq!(w, w.trim());
        }
    }
}

#[test]
fn all_words_concatenates_languages_in_order() {
    let mut expected = Vec::new();
    for lang in [Language::English, Language::Spanish, Language::Romanian, Language::French] {
        expected.extend(words(&lang));
    }
    assert_eq!(all_words(), expected);
    assert_eq!(words(&Language::English)[0], "the");
}

#[test]
fn every_language_has_words() {
    for lang in [Language::Spanish, Language::Romanian, Language::French] {
        assert!(!words(&lang).is_empty());
    }
}

#[test]
fn blank_lines_and_padding_are_dropped() {
    let es = words(&Language::Spanish);
    assert!(es.contains(&"cielo"));
    assert!(es.contains(&"mar"));
    assert_eq!(es.last(), Some(&"mar"));
    assert!(es.iter().all(|w| !w.is_empty() && w.trim() == *w));
}
