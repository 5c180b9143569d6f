use rusty_gematria::cipher;
use rusty_gematria::cipher::{calculate, extended_value, normalize, Gematria};
use rusty_gematria::matrix::Cipher;

#[test]
fn cipher_andrei_equals_306_english() {
    let result = calculate("andrei");
    assert_eq!(result.english, 306);
}

#[test]
fn michael_equals_306_english() {
    let result = calculate("michael");
    assert_eq!(result.english, 306);
}

#[test]
fn calculate_keeps_original_text() {
    let g = calculate("AnDrEi");
    assert_eq!(g.original, "AnDrEi");
}

#[test]
fn andrei_values_under_every_cipher() {
    // a n d r e i
    let g = calculate("andrei");
    assert_eq!(g.simple, 1 + 14 + 4 + 18 + 5 + 9);
    assert_eq!(g.jewish, 1 + 40 + 4 + 80 + 5 + 9);
    assert_eq!(g.mystery, 369 + 900 + 6 + 639 + 17 + 333);
    assert_eq!(g.majestic, 3 + 42 + 12 + 54 + 15 + 27);
    assert_eq!(g.eights, 3 + 96 + 16 + 128 + 32 + 63);
}

#[test]
fn table_ciphers_use_their_odd_letters() {
    assert_eq!(calculate("j").jewish, 600);
    assert_eq!(calculate("v").jewish, 700);
    assert_eq!(calculate("w").jewish, 900);
    assert_eq!(calculate("q").mystery, 1776);
    assert_eq!(calculate("s").mystery, 1618);
    assert_eq!(calculate("p").majestic, 48);
}

#[test]
fn extended_letters_have_their_own_values() {
    assert_eq!(extended_value('ă'), Some(3));
    assert_eq!(extended_value('œ'), Some(55));
    assert_eq!(extended_value('ò'), Some(76));
    assert_eq!(extended_value('x'), None);
    // the same extended value under every cipher
    let g = calculate("ă");
    assert_eq!(g.english, 3);
    assert_eq!(g.simple, 3);
    assert_eq!(g.jewish, 3);
    assert_eq!(g.mystery, 3);
    // so the English value of non-ASCII text need not be a multiple of six
    assert_ne!(g.english % 6, 0);
}

#[test]
fn uppercase_extended_letters_are_lowercased_first() {
    assert_eq!(calculate("Ñ").english, 17);
    assert_eq!(calculate("ÆON").english, 144 + 90 + 84);
}

#[test]
fn digits_and_punctuation_count_nothing() {
    let g = calculate("42!?");
    for c in [Cipher::English, Cipher::Jewish, Cipher::Simple, Cipher::Mystery, Cipher::Majestic, Cipher::Eights] {
        assert_eq!(g.value(&c), 0);
    }
}

#[test]
fn value_reads_each_cipher() {
    let g: Gematria = calculate("michael");
    assert_eq!(g.value(&Cipher::English), g.english);
    assert_eq!(g.value(&Cipher::Jewish), g.jewish);
    assert_eq!(g.value(&Cipher::Simple), g.simple);
    assert_eq!(g.value(&Cipher::Mystery), g.mystery);
    assert_eq!(g.value(&Cipher::Majestic), g.majestic);
    assert_eq!(g.value(&Cipher::Eights), g.eights);
}

#[test]
fn normalize_folds_romanian_letters() {
    assert_eq!(normalize("ăâîșşțţ"), "aaisstt");
    assert_eq!(normalize("pământ"), "pamant");
    assert_eq!(normalize("café"), "café");
}

#[test]
fn lookup_tables_hold_every_letter() {
    let j = cipher::jewish_table();
    let m = cipher::mystery_table();
    assert_eq!(j.len(), 26);
    assert_eq!(m.len(), 26);
    assert_eq!(j.get(&('a' as u32)), Some(&1));
    assert_eq!(m.get(&('z' as u32)), Some(&33));
}

#[test]
fn is_ascii_letter_matches_both_cases() {
    assert!(cipher::is_ascii_letter('a'));
    assert!(cipher::is_ascii_letter('Z'));
    assert!(!cipher::is_ascii_letter('1'));
    assert!(!cipher::is_ascii_letter('é'));
}

#[test]
fn majestic_is_three_times_the_position() {
    for k in 0..26u8 {
        let c = (b'a' + k) as char;
        assert_eq!(calculate(&c.to_string()).majestic, 3 * (k as u64 + 1));
    }
    assert_eq!(calculate("p").majestic, 48);
}

#[test]
fn every_extended_capital_is_worth_its_letter() {
    let pairs = [
        ('Ă', 'ă'), ('Â', 'â'), ('Î', 'î'), ('Ș', 'ș'), ('Ț', 'ț'), ('Ş', 'ş'), ('Ţ', 'ţ'),
        ('À', 'à'), ('Æ', 'æ'), ('Ç', 'ç'), ('È', 'è'), ('É', 'é'), ('Ê', 'ê'), ('Ë', 'ë'),
        ('Ï', 'ï'), ('Ô', 'ô'), ('Œ', 'œ'), ('Ù', 'ù'), ('Û', 'û'), ('Ü', 'ü'), ('Á', 'á'),
        ('Í', 'í'), ('Ó', 'ó'), ('Ú', 'ú'), ('Ñ', 'ñ'), ('Ä', 'ä'), ('Ö', 'ö'), ('ẞ', 'ß'),
        ('Ì', 'ì'), ('Ò', 'ò'),
    ];
    for (capital, letter) in pairs {
        let v = extended_value(letter).unwrap();
        let g = calculate(&capital.to_string());
        for c in [
            Cipher::English,
            Cipher::Jewish,
            Cipher::Simple,
            Cipher::Mystery,
            Cipher::Majestic,
            Cipher::Eights,
        ] {
            assert_eq!(g.value(&c), v, "{} under {:?}", capital, c);
        }
    }
}

#[test]
fn extended_letters_add_up_with_ascii_letters() {
    // é = 12, c = 3 (Simple), a = 1
    let g = calculate("Écla");
    assert_eq!(g.simple, 12 + 3 + 12 + 1);
    assert_eq!(g.english, 12 + 18 + 72 + 6);
    let a = calculate("Éc");
    let b = calculate("la");
    assert_eq!(g.english, a.english + b.english);
    assert_eq!(g.jewish, a.jewish + b.jewish);
}

#[test]
fn extended_text_is_case_insensitive() {
    let upper = calculate("ÉCOLE ÎNȚELEAPTĂ");
    let lower = calculate("école înțeleaptă");
    assert_eq!(upper.english, lower.english);
    assert_eq!(upper.jewish, lower.jewish);
    assert_eq!(upper.simple, lower.simple);
    assert_eq!(upper.mystery, lower.mystery);
    assert_eq!(upper.majestic, lower.majestic);
    assert_eq!(upper.eights, lower.eights);
}

#[test]
fn same_letters_in_any_order_and_spacing_give_same_values() {
    let a = calculate("listen");
    let b = calculate("  S-i-L-e-N-t 42!");
    assert_eq!(a.english, b.english);
    assert_eq!(a.jewish, b.jewish);
    assert_eq!(a.simple, b.simple);
    assert_eq!(a.mystery, b.mystery);
    assert_eq!(a.majestic, b.majestic);
    assert_eq!(a.eights, b.eights);
    let c = calculate("çà");
    let d = calculate("À, Ç");
    assert_eq!(c.english, d.english);
    assert_eq!(c.english, 6 + 3);
}

#[test]
fn english_positive_exactly_with_a_letter_beyond_ascii() {
    assert_eq!(calculate("Ñ!").english, 17);
    assert_eq!(calculate("ẞ").english, 9);
    assert_eq!(calculate("?! 42").english, 0);
}
