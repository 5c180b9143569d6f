use rusty_gematria::cipher::calculate;
use rusty_gematria::matrix::Cipher;
use rusty_gematria::phrase::{
    build_pos_index, build_tagged_words, ends_with, generate, generate_with_seed, guess_pos,
    template_phrases, templates, Template, POS,
};

#[test]
fn pos_tagger_articles() {
    assert_eq!(guess_pos("the"), POS::Article);
    assert_eq!(guess_pos("a"), POS::Article);
    assert_eq!(guess_pos("an"), POS::Article);
}

#[test]
fn pos_tagger_adverbs() {
    assert_eq!(guess_pos("quickly"), POS::Adverb);
    assert_eq!(guess_pos("slowly"), POS::Adverb);
}

#[test]
fn pos_tagger_pronouns() {
    assert_eq!(guess_pos("he"), POS::Pronoun);
    assert_eq!(guess_pos("they"), POS::Pronoun);
}

#[test]
fn templates_are_nonempty() {
    assert!(!templates().is_empty());
}

#[test]
fn build_tagged_words_nonempty() {
    let words = build_tagged_words();
    assert!(!words.is_empty());
}

#[test]
fn pos_tagger_rules_in_order() {
    assert_eq!(guess_pos("For"), POS::Conjunction);
    assert_eq!(guess_pos("between"), POS::Preposition);
    assert_eq!(guess_pos("fly"), POS::Noun); // too short for -ly
    assert_eq!(guess_pos("singing"), POS::Verb);
    assert_eq!(guess_pos("sing"), POS::Noun);
    assert_eq!(guess_pos("walked"), POS::Verb);
    assert_eq!(guess_pos("hopeful"), POS::Adjective);
    assert_eq!(guess_pos("fearless"), POS::Adjective);
    assert_eq!(guess_pos("joyous"), POS::Adjective);
    assert_eq!(guess_pos("active"), POS::Adjective);
    assert_eq!(guess_pos("natural"), POS::Adjective);
    assert_eq!(guess_pos("sal"), POS::Noun); // -al needs more than four bytes
    assert_eq!(guess_pos("Michael"), POS::ProperNoun);
    assert_eq!(guess_pos("Éric"), POS::ProperNoun);
    assert_eq!(guess_pos("house"), POS::Noun);
    assert_eq!(guess_pos(""), POS::Noun);
}

#[test]
fn ends_with_checks_suffixes() {
    assert!(ends_with("quickly", "ly"));
    assert!(ends_with("ly", "ly"));
    assert!(!ends_with("y", "ly"));
    assert!(ends_with("anything", ""));
    assert!(!ends_with("walked", "ing"));
}

#[test]
fn templates_are_three_to_six_words() {
    let t = templates();
    assert_eq!(t.len(), 9);
    assert_eq!(t[0].slots, vec![POS::Article, POS::Noun, POS::Verb]);
    assert!(t.iter().all(|t| t.slots.len() >= 3 && t.slots.len() <= 6));
}

#[test]
fn tagged_words_follow_dictionary() {
    let tagged = build_tagged_words();
    let all = rusty_gematria::dictionary::all_words();
    assert_eq!(tagged.len(), all.len());
    for (t, w) in tagged.iter().zip(all.iter()) {
        assert_eq!(t.text, *w);
        assert_eq!(t.pos, guess_pos(w));
        assert_eq!(t.gematria.english, calculate(w).english);
    }
}

fn small_index() -> Vec<Vec<(String, u64)>> {
    let mut index: Vec<Vec<(String, u64)>> = Vec::new();
    for k in 0..9 {
        index.push(vec![(format!("w{}", k), 1), (format!("v{}", k), 2)]);
    }
    index
}

#[test]
fn template_phrases_hit_the_target_once_per_text() {
    let index = small_index();
    let t = Template { slots: vec![POS::Article, POS::Noun, POS::Verb] };
    // with seed 0, even attempts pick (w0, v1, w2), worth 4, and odd ones (v0, w1, v2),
    // worth 5; each text is kept once
    let found = template_phrases(&t, &index, 4, 3, 0);
    assert_eq!(found.len(), 1);
    assert_eq!(found[0].text, "w0 v1 w2");
    assert_eq!(found[0].words, vec!["w0", "v1", "w2"]);
    assert_eq!(found[0].english, 4);
    let five = template_phrases(&t, &index, 5, 3, 0);
    assert_eq!(five.len(), 1);
    assert_eq!(five[0].text, "v0 w1 v2");
    assert!(template_phrases(&t, &index, 3, 3, 0).is_empty());
}

#[test]
fn template_longer_than_limit_yields_nothing() {
    let index = small_index();
    let t = Template { slots: vec![POS::Article, POS::Noun, POS::Verb] };
    assert!(template_phrases(&t, &index, 4, 2, 0).is_empty());
}

#[test]
fn template_with_empty_slot_yields_nothing() {
    let mut index = small_index();
    index[2].clear();
    let t = Template { slots: vec![POS::Article, POS::Noun, POS::Verb] };
    assert!(template_phrases(&t, &index, 4, 3, 0).is_empty());
    let short: Vec<Vec<(String, u64)>> = Vec::new();
    assert!(template_phrases(&t, &short, 4, 3, 0).is_empty());
}

#[test]
fn pos_index_groups_by_part_of_speech() {
    let tagged = build_tagged_words();
    let index = build_pos_index(&tagged);
    assert_eq!(index.len(), 9);
    let articles: Vec<&str> = index[0].iter().map(|(w, _)| w.as_str()).collect();
    assert!(articles.contains(&"the"));
    for (w, v) in &index[4] {
        assert_eq!(guess_pos(w), POS::Adverb);
        assert_eq!(*v, calculate(w).english);
    }
}

#[test]
fn generated_phrases_hit_the_target() {
    let tagged = build_tagged_words();
    let index = build_pos_index(&tagged);
    let tmpls = templates();
    for seed in [0usize, 7, 123_456_789] {
        for target in [306u64, 1000, 1500] {
            let got = generate_with_seed(&tagged, target, 6, seed);
            let mut expected = Vec::new();
            for t in &tmpls {
                expected.extend(template_phrases(t, &index, target, 6, seed));
            }
            let got_texts: Vec<&String> = got.iter().map(|p| &p.text).collect();
            let exp_texts: Vec<&String> = expected.iter().map(|p| &p.text).collect();
            assert_eq!(got_texts, exp_texts);
            for p in &got {
                assert_eq!(p.english, target);
                assert_eq!(p.text, p.words.join(" "));
                let sum: u64 = p.words.iter().map(|w| calculate(w).english).sum();
                assert_eq!(sum, target);
            }
        }
    }
}

#[test]
fn limit_skips_long_templates() {
    let tagged = build_tagged_words();
    for p in generate_with_seed(&tagged, 1000, 3, 11) {
        assert_eq!(p.words.len(), 3);
    }
    assert!(generate_with_seed(&tagged, 1000, 2, 11).is_empty());
}

#[test]
fn clock_seeded_generation_hits_the_target() {
    let tagged = build_tagged_words();
    for p in generate(&tagged, 1200, &Cipher::English, 6) {
        assert_eq!(p.english, 1200);
    }
}

#[test]
fn capital_first_letter_decides_proper_noun() {
    assert_eq!(guess_pos("Michael"), POS::ProperNoun);
    assert_eq!(guess_pos("michael"), POS::Noun);
    assert_eq!(guess_pos("The"), POS::Article);
    assert_eq!(guess_pos("running"), POS::Verb);
    assert_eq!(guess_pos("Zebra"), POS::ProperNoun);
    assert_eq!(guess_pos("zebra"), POS::Noun);
}
