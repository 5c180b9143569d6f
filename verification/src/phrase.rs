use crate::cipher::{calculate, lowercase, to_lowercase, wrap64, Gematria};
use crate::dictionary::{all_words, combined_words, str_equal};
use crate::matrix::Cipher;
use crate::textee::{join_strings, join_words};
use rayon::iter::{IndexedParallelIterator, IntoParallelRefIterator, ParallelIterator};
use vstd::prelude::*;

verus! {

/// Part of speech of a dictionary word, as guessed from its spelling.
#[derive(Debug, Clone, Copy, PartialEq, Eq, Structural, Hash)]
pub enum POS {
    Article,
    Noun,
    Verb,
    Adjective,
    Adverb,
    Pronoun,
    Preposition,
    Conjunction,
    ProperNoun,
}

/// A sentence shape: the part of speech of each word, in order.
#[derive(Debug, Clone)]
pub struct Template {
    pub slots: Vec<POS>,
}

/// The sentence shapes the phrase engine fills, in order.
pub open spec fn template_table() -> Seq<Seq<POS>> {
    seq![
        seq![POS::Article, POS::Noun, POS::Verb],
        seq![POS::ProperNoun, POS::Verb, POS::Adverb],
        seq![POS::Article, POS::Adjective, POS::Noun, POS::Verb],
        seq![POS::Article, POS::Noun, POS::Verb, POS::Adverb],
        seq![POS::Pronoun, POS::Verb, POS::Article, POS::Noun],
        seq![POS::Adjective, POS::Noun, POS::Verb, POS::Adjective, POS::Noun],
        seq![POS::ProperNoun, POS::Verb, POS::Preposition, POS::Article, POS::Noun],
        seq![POS::Article, POS::Noun, POS::Verb, POS::Conjunction, POS::Verb],
        seq![POS::Article, POS::Noun, POS::Verb, POS::Preposition, POS::Article, POS::Noun],
    ]
}

/// Whether a list of templates holds exactly the given sentence shapes.
pub open spec fn holds_shapes(ts: Seq<Template>, shapes: Seq<Seq<POS>>) -> bool {
    &&& ts.len() == shapes.len()
    &&& forall|i: int| 0 <= i < ts.len() ==> (#[trigger] ts[i]).slots@ == shapes[i]
}

/// The sentence templates, from three to six words long.
pub fn templates() -> (r: Vec<Template>)
    ensures
        holds_shapes(r@, template_table()),
{
    let r = vec![
        Template { slots: vec![POS::Article, POS::Noun, POS::Verb] },
        Template { slots: vec![POS::ProperNoun, POS::Verb, POS::Adverb] },
        Template { slots: vec![POS::Article, POS::Adjective, POS::Noun, POS::Verb] },
        Template { slots: vec![POS::Article, POS::Noun, POS::Verb, POS::Adverb] },
        Template { slots: vec![POS::Pronoun, POS::Verb, POS::Article, POS::Noun] },
        Template {
            slots: vec![POS::Adjective, POS::Noun, POS::Verb, POS::Adjective, POS::Noun],
        },
        Template {
            slots: vec![POS::ProperNoun, POS::Verb, POS::Preposition, POS::Article, POS::Noun],
        },
        Template {
            slots: vec![POS::Article, POS::Noun, POS::Verb, POS::Conjunction, POS::Verb],
        },
        Template {
            slots: vec![
                POS::Article,
                POS::Noun,
                POS::Verb,
                POS::Preposition,
                POS::Article,
                POS::Noun,
            ],
        },
    ];
    assert(holds_shapes(r@, template_table()));
    r
}

/// Articles: `a`, `an`, `the`.
pub const ARTICLES: [&'static str; 3] = ["a", "an", "the"];

/// Personal pronouns.
pub const PRONOUNS: [&'static str; 12] = [
    "i", "you", "he", "she", "it", "we", "they", "me", "him", "her", "us", "them",
];

/// Coordinating conjunctions.
pub const CONJUNCTIONS: [&'static str; 7] = ["and", "but", "or", "nor", "so", "yet", "for"];

/// Prepositions (`for` is listed too, but reads as a conjunction first).
pub const PREPOSITIONS: [&'static str; 21] = [
    "in", "on", "at", "by", "for", "with", "about", "against", "between", "through", "during",
    "before", "after", "above", "below", "from", "to", "of", "into", "over", "under",
];

/// Whether `w` is one of the words of `list`.
pub open spec fn listed(w: Seq<char>, list: Seq<&str>) -> bool {
    exists|i: int| 0 <= i < list.len() && (#[trigger] list[i])@ == w
}

/// Whether `t` is a suffix of `s`.
pub open spec fn ends_with_seq(s: Seq<char>, t: Seq<char>) -> bool {
    t.len() <= s.len() && s.subrange(s.len() - t.len(), s.len() as int) == t
}

/// Length in bytes of the UTF-8 encoding of `s`, as `str::len` reports it.
pub open spec fn byte_len(s: Seq<char>) -> int {
    vstd::utf8::encode_utf8(s).len() as usize as int
}

/// Whether `char::is_uppercase` holds of `c` (the Unicode Uppercase property).
pub uninterp spec fn uppercase_char(c: char) -> bool;

/// Calls `char::is_uppercase`. Its result is named `uppercase_char`; beside the name stands
/// the documented fact that among ASCII chars exactly `A`..`Z` are uppercase. Which other
/// chars carry the Unicode Uppercase property is left unsaid.
#[verifier::external_body]
fn is_uppercase(c: char) -> (r: bool)
    ensures
        r == uppercase_char(c),
        '\0' <= c <= '\u{7f}' ==> (r <==> crate::cipher::is_ascii_upper(c)),
{
    c.is_uppercase()
}

/// The part of speech guessed for `word`: function words by list (articles, then pronouns,
/// conjunctions, prepositions), then by suffix (`-ly` adverbs, `-ing` and `-ed` verbs,
/// `-ful`, `-less`, `-ous`, `-ive`, `-al` adjectives), then capitalised words as proper
/// nouns, and nouns otherwise. Lists and suffixes are matched on the lowercased word.
pub open spec fn guessed_pos(word: Seq<char>) -> POS {
    let w = lowercase(word);
    if listed(w, ARTICLES@) {
        POS::Article
    } else if listed(w, PRONOUNS@) {
        POS::Pronoun
    } else if listed(w, CONJUNCTIONS@) {
        POS::Conjunction
    } else if listed(w, PREPOSITIONS@) {
        POS::Preposition
    } else if ends_with_seq(w, "ly"@) && byte_len(w) > 4 {
        POS::Adverb
    } else if ends_with_seq(w, "ing"@) && byte_len(w) > 5 {
        POS::Verb
    } else if ends_with_seq(w, "ed"@) && byte_len(w) > 4 {
        POS::Verb
    } else if ends_with_seq(w, "ful"@) || ends_with_seq(w, "less"@) || ends_with_seq(w, "ous"@)
        || ends_with_seq(w, "ive"@) || (ends_with_seq(w, "al"@) && byte_len(w) > 4) {
        POS::Adjective
    } else if word.len() > 0 && uppercase_char(word[0]) {
        POS::ProperNoun
    } else {
        POS::Noun
    }
}

/// Whether the lowercased word is one of the listed function words.
pub open spec fn is_function_word(w: Seq<char>) -> bool {
    listed(w, ARTICLES@) || listed(w, PRONOUNS@) || listed(w, CONJUNCTIONS@) || listed(
        w,
        PREPOSITIONS@,
    )
}

/// A word is tagged a verb only when its lowercase ends in `ing` (and is more than five
/// bytes long) or in `ed` (and is more than four bytes long).
pub proof fn law_verbs_end_in_ing_or_ed(word: Seq<char>)
    ensures
        guessed_pos(word) == POS::Verb ==> {
            let w = lowercase(word);
            let n = w.len();
            ||| n >= 3 && w[n - 3] == 'i' && w[n - 2] == 'n' && w[n - 1] == 'g' && byte_len(w) > 5
            ||| n >= 2 && w[n - 2] == 'e' && w[n - 1] == 'd' && byte_len(w) > 4
        },
{
    reveal_strlit("ing");
    reveal_strlit("ed");
    let w = lowercase(word);
    let n = w.len();
    if guessed_pos(word) == POS::Verb {
        if ends_with_seq(w, "ing"@) && byte_len(w) > 5 {
            assert(w.subrange(n - 3, n as int)[0] == w[n - 3]);
            assert(w.subrange(n - 3, n as int)[1] == w[n - 2]);
            assert(w.subrange(n - 3, n as int)[2] == w[n - 1]);
        } else {
            assert(ends_with_seq(w, "ed"@) && byte_len(w) > 4);
            assert(w.subrange(n - 2, n as int)[0] == w[n - 2]);
            assert(w.subrange(n - 2, n as int)[1] == w[n - 1]);
        }
    }
}

/// A word whose lowercase is no listed function word, does not end in `ly`, `ing`, `ed`,
/// `ful`, `less`, `ous`, `ive` or `al`, and does not start with a capital is tagged a noun.
pub proof fn law_plain_words_are_nouns(word: Seq<char>)
    requires
        !is_function_word(lowercase(word)),
        !ends_with_seq(lowercase(word), "ly"@),
        !ends_with_seq(lowercase(word), "ing"@),
        !ends_with_seq(lowercase(word), "ed"@),
        !ends_with_seq(lowercase(word), "ful"@),
        !ends_with_seq(lowercase(word), "less"@),
        !ends_with_seq(lowercase(word), "ous"@),
        !ends_with_seq(lowercase(word), "ive"@),
        !ends_with_seq(lowercase(word), "al"@),
        !(word.len() > 0 && uppercase_char(word[0])),
    ensures
        guessed_pos(word) == POS::Noun,
{
}

/// A listed function word is tagged by its list: articles first, then pronouns,
/// conjunctions (so `for` is a conjunction) and prepositions.
pub proof fn law_function_words_by_list(word: Seq<char>)
    ensures
        listed(lowercase(word), ARTICLES@) ==> guessed_pos(word) == POS::Article,
        !listed(lowercase(word), ARTICLES@) && listed(lowercase(word), PRONOUNS@) ==> guessed_pos(
            word,
        ) == POS::Pronoun,
        !listed(lowercase(word), ARTICLES@) && !listed(lowercase(word), PRONOUNS@) && listed(
            lowercase(word),
            CONJUNCTIONS@,
        ) ==> guessed_pos(word) == POS::Conjunction,
        !listed(lowercase(word), ARTICLES@) && !listed(lowercase(word), PRONOUNS@) && !listed(
            lowercase(word),
            CONJUNCTIONS@,
        ) && listed(lowercase(word), PREPOSITIONS@) ==> guessed_pos(word) == POS::Preposition,
{
}

fn is_listed(w: &str, list: &[&'static str]) -> (r: bool)
    ensures
        r == listed(w@, list@),
{
    let mut i: usize = 0;
    while i < list.len()
        invariant
            i <= list@.len(),
            forall|j: int| 0 <= j < i ==> (#[trigger] list@[j])@ != w@,
        decreases list@.len() - i,
    {
        if str_equal(list[i], w) {
            return true;
        }
        i += 1;
    }
    false
}

/// Whether `s` ends with `suffix`.
pub fn ends_with(s: &str, suffix: &str) -> (r: bool)
    ensures
        r == ends_with_seq(s@, suffix@),
{
    let n = s.unicode_len();
    let m = suffix.unicode_len();
    if m > n {
        return false;
    }
    let mut i: usize = 0;
    while i < m
        invariant
            n == s@.len(),
            m == suffix@.len(),
            m <= n,
            i <= m,
            forall|j: int| 0 <= j < i ==> s@[n - m + j] == suffix@[j],
        decreases m - i,
    {
        if s.get_char(n - m + i) != suffix.get_char(i) {
            assert(s@.subrange(n - m, n as int)[i as int] != suffix@[i as int]);
            return false;
        }
        i += 1;
    }
    assert(s@.subrange(n - m, n as int) =~= suffix@);
    true
}

/// Guesses the part of speech of a word from its spelling. For an ASCII word the
/// lowercased form is its ASCII lowercase, and an ASCII first letter counts as a capital
/// exactly when it is one of `A`..`Z`.
pub fn guess_pos(word: &str) -> (p: POS)
    ensures
        p == guessed_pos(word@),
        vstd::utf8::is_ascii_chars(word@) ==> lowercase(word@) == crate::cipher::ascii_lower_seq(
            word@,
        ),
        word@.len() > 0 && '\0' <= word@[0] <= '\u{7f}' ==> (uppercase_char(word@[0])
            <==> crate::cipher::is_ascii_upper(word@[0])),
        p == POS::Verb ==> {
            let w = lowercase(word@);
            let n = w.len();
            ||| n >= 3 && w[n - 3] == 'i' && w[n - 2] == 'n' && w[n - 1] == 'g' && byte_len(w) > 5
            ||| n >= 2 && w[n - 2] == 'e' && w[n - 1] == 'd' && byte_len(w) > 4
        },
{
    proof {
        law_verbs_end_in_ing_or_ed(word@);
    }
    let first_upper = !word.is_empty() && is_uppercase(word.get_char(0));
    let lower = to_lowercase(word);
    proof {
        if vstd::utf8::is_ascii_chars(word@) {
            crate::cipher::lemma_ascii_is_known(word@);
        }
    }
    let w = lower.as_str();
    if is_listed(w, &ARTICLES) {
        return POS::Article;
    }
    if is_listed(w, &PRONOUNS) {
        return POS::Pronoun;
    }
    if is_listed(w, &CONJUNCTIONS) {
        return POS::Conjunction;
    }
    if is_listed(w, &PREPOSITIONS) {
        return POS::Preposition;
    }
    if ends_with(w, "ly") && w.len() > 4 {
        return POS::Adverb;
    }
    if ends_with(w, "ing") && w.len() > 5 {
        return POS::Verb;
    }
    if ends_with(w, "ed") && w.len() > 4 {
        return POS::Verb;
    }
    if ends_with(w, "ful") || ends_with(w, "less") || ends_with(w, "ous") || ends_with(w, "ive")
        || ends_with(w, "al") && w.len() > 4 {
        return POS::Adjective;
    }
    if first_upper {
        return POS::ProperNoun;
    }
    POS::Noun
}

/// A dictionary word with its guessed part of speech and its cipher values.
#[derive(Debug, Clone)]
pub struct TaggedWord {
    pub text: String,
    pub pos: POS,
    pub gematria: Gematria,
}

/// Whether `t` is the tagging of `word`.
pub open spec fn tags(t: TaggedWord, word: Seq<char>) -> bool {
    &&& t.text@ == word
    &&& t.pos == guessed_pos(word)
    &&& t.gematria.computed_from(word)
}

/// Tags every word of the four dictionaries, in dictionary order.
pub fn build_tagged_words() -> (r: Vec<TaggedWord>)
    ensures
        r@.len() == combined_words().len(),
        forall|i: int| 0 <= i < r@.len() ==> tags(#[trigger] r@[i], combined_words()[i]),
{
    let words = all_words();
    let mut tagged: Vec<TaggedWord> = Vec::new();
    for i in 0..words.len()
        invariant
            words.deep_view() == combined_words(),
            tagged@.len() == i,
            forall|j: int| 0 <= j < i ==> tags(#[trigger] tagged@[j], combined_words()[j]),
    {
        let word = words[i];
        let pos = guess_pos(word);
        let gematria = calculate(word);
        tagged.push(TaggedWord { text: String::from_str(word), pos, gematria });
    }
    tagged
}

/// Position of a part of speech in the candidate index.
pub open spec fn pos_slot(p: POS) -> int {
    match p {
        POS::Article => 0,
        POS::Noun => 1,
        POS::Verb => 2,
        POS::Adjective => 3,
        POS::Adverb => 4,
        POS::Pronoun => 5,
        POS::Preposition => 6,
        POS::Conjunction => 7,
        POS::ProperNoun => 8,
    }
}

/// Position of a part of speech in the candidate index.
pub fn pos_slot_of(p: &POS) -> (k: usize)
    ensures
        k == pos_slot(*p),
{
    match p {
        POS::Article => 0,
        POS::Noun => 1,
        POS::Verb => 2,
        POS::Adjective => 3,
        POS::Adverb => 4,
        POS::Pronoun => 5,
        POS::Preposition => 6,
        POS::Conjunction => 7,
        POS::ProperNoun => 8,
    }
}

/// A generated phrase: its words, the words joined with spaces, and its English value.
#[derive(Debug, Clone)]
pub struct GeneratedPhrase {
    pub words: Vec<String>,
    pub text: String,
    pub english: u64,
}

/// A generated phrase as plain values: words, text, English value.
pub open spec fn phrase_view(g: GeneratedPhrase) -> (Seq<Seq<char>>, Seq<char>, u64) {
    (g.words.deep_view(), g.text@, g.english)
}

pub open spec fn phrases_view(v: Seq<GeneratedPhrase>) -> Seq<(Seq<Seq<char>>, Seq<char>, u64)> {
    Seq::new(v.len(), |i: int| phrase_view(v[i]))
}

/// The candidates of each template slot: the words of the slot's part of speech, or none
/// when the index has no list for it.
pub open spec fn slot_candidates(index: Seq<Seq<(Seq<char>, u64)>>, slots: Seq<POS>) -> Seq<
    Seq<(Seq<char>, u64)>,
> {
    Seq::new(
        slots.len(),
        |j: int|
            if pos_slot(slots[j]) < index.len() {
                index[pos_slot(slots[j])]
            } else {
                Seq::empty()
            },
    )
}

/// Which candidate slot `slot` takes on attempt `attempt`: the seed plus `31 * attempt` plus
/// `17 * slot`, with wrapping `usize` additions, reduced modulo the number of candidates.
pub open spec fn pick(seed: usize, attempt: int, slot: int, n: int) -> int {
    (vstd::wrapping::usize_specs::wrapping_add(
        vstd::wrapping::usize_specs::wrapping_add(seed, (attempt * 31) as usize),
        (slot * 17) as usize,
    ) as int) % n
}

/// The candidate chosen for each slot on one attempt.
pub open spec fn chosen(cands: Seq<Seq<(Seq<char>, u64)>>, seed: usize, attempt: int) -> Seq<
    (Seq<char>, u64),
> {
    Seq::new(cands.len(), |j: int| cands[j][pick(seed, attempt, j, cands[j].len() as int)])
}

pub open spec fn value_total(ch: Seq<(Seq<char>, u64)>) -> int
    decreases ch.len(),
{
    if ch.len() == 0 {
        0
    } else {
        value_total(ch.drop_last()) + ch.last().1
    }
}

pub open spec fn chosen_words(ch: Seq<(Seq<char>, u64)>) -> Seq<Seq<char>> {
    Seq::new(ch.len(), |j: int| ch[j].0)
}

pub open spec fn has_text(rs: Seq<(Seq<Seq<char>>, Seq<char>, u64)>, t: Seq<char>) -> bool {
    exists|k: int| 0 <= k < rs.len() && (#[trigger] rs[k]).1 == t
}

/// The phrases found by the first `n` attempts: an attempt whose chosen words add up to
/// `target` (wrapping at 2^64) adds its phrase, unless a phrase of the same text is there.
pub open spec fn attempts(
    cands: Seq<Seq<(Seq<char>, u64)>>,
    target: u64,
    seed: usize,
    n: nat,
) -> Seq<(Seq<Seq<char>>, Seq<char>, u64)>
    decreases n,
{
    if n == 0 {
        Seq::empty()
    } else {
        let prev = attempts(cands, target, seed, (n - 1) as nat);
        let ch = chosen(cands, seed, n - 1);
        let total = wrap64(value_total(ch));
        let words = chosen_words(ch);
        let text = join_words(words);
        if total == target && !has_text(prev, text) {
            prev.push((words, text, total))
        } else {
            prev
        }
    }
}

/// How many sampling attempts each template gets.
pub const ATTEMPTS: usize = 500;

/// The phrases one template yields: none when it is longer than `limit` or a slot has no
/// candidate, else those of the sampling attempts.
pub open spec fn template_result(
    slots: Seq<POS>,
    index: Seq<Seq<(Seq<char>, u64)>>,
    target: u64,
    limit: int,
    seed: usize,
) -> Seq<(Seq<Seq<char>>, Seq<char>, u64)> {
    let c = slot_candidates(index, slots);
    if slots.len() > limit {
        Seq::empty()
    } else if exists|j: int| 0 <= j < c.len() && (#[trigger] c[j]).len() == 0 {
        Seq::empty()
    } else {
        attempts(c, target, seed, ATTEMPTS as nat)
    }
}

proof fn lemma_value_total_nonneg(ch: Seq<(Seq<char>, u64)>)
    ensures
        value_total(ch) >= 0,
    decreases ch.len(),
{
    if ch.len() > 0 {
        lemma_value_total_nonneg(ch.drop_last());
    }
}

fn contains_text(results: &Vec<GeneratedPhrase>, text: &String) -> (r: bool)
    ensures
        r == has_text(phrases_view(results@), text@),
{
    let mut k: usize = 0;
    while k < results.len()
        invariant
            k <= results@.len(),
            forall|j: int| 0 <= j < k ==> results@[j].text@ != text@,
        decreases results@.len() - k,
    {
        if results[k].text == *text {
            assert(phrases_view(results@)[k as int].1 == text@);
            return true;
        }
        k += 1;
    }
    assert forall|j: int| 0 <= j < phrases_view(results@).len() implies (#[trigger] phrases_view(
        results@,
    )[j]).1 != text@ by {
        assert(results@[j].text@ != text@);
    }
    false
}

/// The phrases one template yields for `target`: nothing when the template is longer than
/// `limit` or one of its slots has no candidate; else, over `ATTEMPTS` attempts, the chosen
/// words whose English values add up to `target`, each text kept once.
pub fn template_phrases(
    template: &Template,
    pos_index: &Vec<Vec<(String, u64)>>,
    target: u64,
    limit: usize,
    seed: usize,
) -> (r: Vec<GeneratedPhrase>)
    requires
        template.slots@.len() * 17 <= usize::MAX,
    ensures
        phrases_view(r@) == template_result(
            template.slots@,
            pos_index.deep_view(),
            target,
            limit as int,
            seed,
        ),
{
    let ghost index = pos_index.deep_view();
    let ghost cands = slot_candidates(index, template.slots@);
    let n = template.slots.len();
    if n > limit {
        let r: Vec<GeneratedPhrase> = Vec::new();
        assert(phrases_view(r@) =~= Seq::empty());
        return r;
    }
    let mut j: usize = 0;
    while j < n
        invariant
            n == template.slots@.len(),
            j <= n,
            index == pos_index.deep_view(),
            cands == slot_candidates(index, template.slots@),
            forall|k: int| 0 <= k < j ==> (#[trigger] cands[k]).len() > 0,
        decreases n - j,
    {
        let k = pos_slot_of(&template.slots[j]);
        if k >= pos_index.len() || pos_index[k].len() == 0 {
            assert(cands[j as int].len() == 0);
            let r: Vec<GeneratedPhrase> = Vec::new();
            assert(phrases_view(r@) =~= Seq::empty());
            return r;
        }
        j += 1;
    }
    let mut results: Vec<GeneratedPhrase> = Vec::new();
    assert(phrases_view(results@) =~= attempts(cands, target, seed, 0));
    let mut i: usize = 0;
    while i < ATTEMPTS
        invariant
            n == template.slots@.len(),
            n * 17 <= usize::MAX,
            index == pos_index.deep_view(),
            cands == slot_candidates(index, template.slots@),
            forall|k: int| 0 <= k < n ==> (#[trigger] cands[k]).len() > 0,
            i <= ATTEMPTS,
            phrases_view(results@) == attempts(cands, target, seed, i as nat),
        decreases ATTEMPTS - i,
    {
        let ghost ch = chosen(cands, seed, i as int);
        let mut words: Vec<String> = Vec::new();
        let mut total: u64 = 0;
        let mut j: usize = 0;
        while j < n
            invariant
                n == template.slots@.len(),
                n * 17 <= usize::MAX,
                i < ATTEMPTS,
                j <= n,
                index == pos_index.deep_view(),
                cands == slot_candidates(index, template.slots@),
                forall|k: int| 0 <= k < n ==> (#[trigger] cands[k]).len() > 0,
                ch == chosen(cands, seed, i as int),
                words.deep_view() == chosen_words(ch).take(j as int),
                total == wrap64(value_total(ch.take(j as int))),
            decreases n - j,
        {
            let k = pos_slot_of(&template.slots[j]);
            assert(cands[j as int] == index[k as int]);
            let list = &pos_index[k];
            let idx = seed.wrapping_add(i * 31).wrapping_add(j * 17) % list.len();
            assert(idx == pick(seed, i as int, j as int, cands[j as int].len() as int));
            let (w, v) = &list[idx];
            proof {
                assert(ch[j as int] == (w@, *v));
                assert(ch.take(j + 1).drop_last() == ch.take(j as int));
                lemma_value_total_nonneg(ch.take(j as int));
                crate::cipher::lemma_wrap64_add(value_total(ch.take(j as int)), *v);
            }
            let word = w.clone();
            let ghost before = words.deep_view();
            words.push(word);
            total = total.wrapping_add(*v);
            proof {
                assert(words@.last() == word);
                assert(words.deep_view() =~= before.push(word@));
                assert(chosen_words(ch).take(j + 1) =~= chosen_words(ch).take(j as int).push(
                    ch[j as int].0,
                ));
            }
            j += 1;
        }
        proof {
            assert(ch.take(n as int) == ch);
            assert(chosen_words(ch).take(n as int) == chosen_words(ch));
        }
        if total == target {
            let text = join_strings(&words);
            if !contains_text(&results, &text) {
                let ghost before = results@;
                results.push(GeneratedPhrase { words, text, english: total });
                assert(phrases_view(results@) =~= phrases_view(before).push(
                    phrase_view(results@.last()),
                ));
            }
        }
        i += 1;
    }
    results
}

/// The words tagged with the part of speech at position `k`, with their English values,
/// in the order of `ts`.
pub open spec fn candidates_of(ts: Seq<TaggedWord>, k: int) -> Seq<(Seq<char>, u64)>
    decreases ts.len(),
{
    if ts.len() == 0 {
        Seq::empty()
    } else {
        let rest = candidates_of(ts.drop_last(), k);
        if pos_slot(ts.last().pos) == k {
            rest.push((ts.last().text@, ts.last().gematria.english))
        } else {
            rest
        }
    }
}

/// Candidate words by part of speech, one list per position.
pub open spec fn pos_index_of(ts: Seq<TaggedWord>) -> Seq<Seq<(Seq<char>, u64)>> {
    Seq::new(9, |k: int| candidates_of(ts, k))
}

/// Groups the tagged words by part of speech, keeping each word's text and English value.
pub fn build_pos_index(tagged: &[TaggedWord]) -> (r: Vec<Vec<(String, u64)>>)
    ensures
        r.deep_view() == pos_index_of(tagged@),
{
    let mut index: Vec<Vec<(String, u64)>> = Vec::new();
    let mut k: usize = 0;
    while k < 9
        invariant
            k <= 9,
            index@.len() == k,
            forall|j: int| 0 <= j < k ==> (#[trigger] index@[j])@.len() == 0,
        decreases 9 - k,
    {
        index.push(Vec::new());
        k += 1;
    }
    assert forall|j: int| 0 <= j < 9 implies (#[trigger] index.deep_view()[j]) == candidates_of(
        tagged@.take(0),
        j,
    ) by {
        assert(index@[j].deep_view() =~= Seq::<(Seq<char>, u64)>::empty());
    }
    assert(index.deep_view() =~= pos_index_of(tagged@.take(0)));
    for i in 0..tagged.len()
        invariant
            index@.len() == 9,
            index.deep_view() == pos_index_of(tagged@.take(i as int)),
    {
        let tw = &tagged[i];
        let k = pos_slot_of(&tw.pos);
        let ghost before = index@;
        let ghost before_dv = index.deep_view();
        let mut list = index.remove(k);
        let entry = (tw.text.clone(), tw.gematria.english);
        list.push(entry);
        index.insert(k, list);
        proof {
            let ts = tagged@.take(i + 1);
            assert(ts.drop_last() == tagged@.take(i as int));
            assert(ts.last() == *tw);
            assert(index@ =~= before.update(k as int, index@[k as int]));
            assert forall|j: int| 0 <= j < 9 implies (#[trigger] index.deep_view()[j])
                == candidates_of(ts, j) by {
                assert(before_dv[j] == before[j].deep_view());
                assert(before_dv[j] == candidates_of(tagged@.take(i as int), j));
                assert(index.deep_view()[j] == index@[j].deep_view());
                if j == k {
                    assert(index@[j].deep_view() =~= before[j].deep_view().push(
                        (tw.text@, tw.gematria.english),
                    ));
                } else {
                    assert(index@[j] == before[j]);
                }
            }
            assert(index.deep_view() =~= pos_index_of(ts));
        }
    }
    assert(tagged@.take(tagged@.len() as int) == tagged@);
    index
}

/// Whether `e` is a phrase for `target` drawn from `cands`: one candidate word per slot,
/// joined with spaces, worth `target`.
pub open spec fn drawn_from(
    e: (Seq<Seq<char>>, Seq<char>, u64),
    cands: Seq<Seq<(Seq<char>, u64)>>,
    target: u64,
) -> bool {
    &&& e.2 == target
    &&& e.1 == join_words(e.0)
    &&& e.0.len() == cands.len()
    &&& forall|j: int| 0 <= j < cands.len() ==> is_candidate(#[trigger] cands[j], e.0[j])
}

/// Whether `w` is the word of one of the candidates.
pub open spec fn is_candidate(cands: Seq<(Seq<char>, u64)>, w: Seq<char>) -> bool {
    exists|m: int| 0 <= m < cands.len() && (#[trigger] cands[m]).0 == w
}

proof fn lemma_chosen_drawn(
    cands: Seq<Seq<(Seq<char>, u64)>>,
    target: u64,
    seed: usize,
    attempt: int,
)
    requires
        forall|j: int| 0 <= j < cands.len() ==> (#[trigger] cands[j]).len() > 0,
        wrap64(value_total(chosen(cands, seed, attempt))) == target,
    ensures
        drawn_from(
            (
                chosen_words(chosen(cands, seed, attempt)),
                join_words(chosen_words(chosen(cands, seed, attempt))),
                target,
            ),
            cands,
            target,
        ),
{
    let words = chosen_words(chosen(cands, seed, attempt));
    assert forall|j: int| 0 <= j < cands.len() implies is_candidate(#[trigger] cands[j], words[j]) by {
        let p = pick(seed, attempt, j, cands[j].len() as int);
        assert(0 <= p < cands[j].len());
        assert(cands[j][p].0 == words[j]);
    }
}

/// The sampling attempts find phrases worth `target`, each made of one candidate per slot;
/// no text is found twice, and there are at most as many phrases as attempts.
pub proof fn law_attempts(cands: Seq<Seq<(Seq<char>, u64)>>, target: u64, seed: usize, n: nat)
    requires
        forall|j: int| 0 <= j < cands.len() ==> (#[trigger] cands[j]).len() > 0,
    ensures
        attempts(cands, target, seed, n).len() <= n,
        forall|k: int|
            0 <= k < attempts(cands, target, seed, n).len() ==> drawn_from(
                #[trigger] attempts(cands, target, seed, n)[k],
                cands,
                target,
            ),
        forall|k1: int, k2: int|
            0 <= k1 < k2 < attempts(cands, target, seed, n).len() ==> (#[trigger] attempts(
                cands,
                target,
                seed,
                n,
            )[k1]).1 != (#[trigger] attempts(cands, target, seed, n)[k2]).1,
    decreases n,
{
    if n > 0 {
        let m = (n - 1) as nat;
        law_attempts(cands, target, seed, m);
        let prev = attempts(cands, target, seed, m);
        let all = attempts(cands, target, seed, n);
        let ch = chosen(cands, seed, n - 1);
        let words = chosen_words(ch);
        let text = join_words(words);
        let total = wrap64(value_total(ch));
        if total == target && !has_text(prev, text) {
            let e = (words, text, total);
            assert(all == prev.push(e));
            lemma_chosen_drawn(cands, target, seed, n - 1);
            assert(e.2 == target);
            assert(e.1 == join_words(e.0));
            assert(e.0.len() == cands.len());
            assert(drawn_from(e, cands, target));
            assert forall|k: int| 0 <= k < all.len() implies drawn_from(
                #[trigger] all[k],
                cands,
                target,
            ) by {
                if k < prev.len() {
                    assert(all[k] == prev[k]);
                } else {
                    assert(all[k] == e);
                }
            }
            assert forall|k1: int, k2: int| 0 <= k1 < k2 < all.len() implies (#[trigger] all[k1]).1
                != (#[trigger] all[k2]).1 by {
                if k2 < prev.len() {
                    assert(all[k1] == prev[k1] && all[k2] == prev[k2]);
                } else {
                    assert(all[k1] == prev[k1]);
                    assert(prev[k1].1 != text);
                }
            }
        }
    }
}

/// A template longer than `limit`, or with a slot that has no candidate, yields nothing;
/// otherwise its phrases are worth `target`, take one candidate of the slot's part of
/// speech per slot, and have distinct texts.
pub proof fn law_template_result(
    slots: Seq<POS>,
    index: Seq<Seq<(Seq<char>, u64)>>,
    target: u64,
    limit: int,
    seed: usize,
)
    ensures
        slots.len() > limit ==> template_result(slots, index, target, limit, seed).len() == 0,
        template_result(slots, index, target, limit, seed).len() <= ATTEMPTS,
        forall|k: int|
            0 <= k < template_result(slots, index, target, limit, seed).len() ==> drawn_from(
                #[trigger] template_result(slots, index, target, limit, seed)[k],
                slot_candidates(index, slots),
                target,
            ),
        forall|k1: int, k2: int|
            0 <= k1 < k2 < template_result(slots, index, target, limit, seed).len() ==> (
            #[trigger] template_result(slots, index, target, limit, seed)[k1]).1 != (
            #[trigger] template_result(slots, index, target, limit, seed)[k2]).1,
{
    let c = slot_candidates(index, slots);
    if slots.len() <= limit && !(exists|j: int| 0 <= j < c.len() && (#[trigger] c[j]).len() == 0) {
        law_attempts(c, target, seed, ATTEMPTS as nat);
    }
}

proof fn lemma_flatten_member<A>(ss: Seq<Seq<A>>, k: int)
    requires
        0 <= k < ss.flatten().len(),
    ensures
        exists|i: int, j: int|
            0 <= i < ss.len() && 0 <= j < ss[i].len() && #[trigger] ss[i][j] == ss.flatten()[k],
    decreases ss.len(),
{
    if ss.len() > 0 {
        assert(ss.flatten() == ss.first() + ss.drop_first().flatten());
        if k < ss.first().len() {
            assert(ss[0][k] == ss.flatten()[k]);
        } else {
            lemma_flatten_member(ss.drop_first(), k - ss.first().len());
            let (i, j) = choose|i: int, j: int|
                0 <= i < ss.drop_first().len() && 0 <= j < ss.drop_first()[i].len()
                    && #[trigger] ss.drop_first()[i][j] == ss.drop_first().flatten()[k
                    - ss.first().len()];
            assert(ss[i + 1][j] == ss.flatten()[k]);
        }
    }
}

/// Every generated phrase is worth the target under the English cipher, and its text is
/// its words joined with single spaces.
pub proof fn law_generated_hits_target(
    tagged: Seq<TaggedWord>,
    target: u64,
    limit: int,
    seed: usize,
)
    ensures
        forall|k: int|
            0 <= k < generated(tagged, target, limit, seed).len() ==> {
                let e = #[trigger] generated(tagged, target, limit, seed)[k];
                e.2 == target && e.1 == join_words(e.0)
            },
{
    let parts = Seq::new(
        template_table().len(),
        |i: int| template_result(template_table()[i], pos_index_of(tagged), target, limit, seed),
    );
    assert forall|k: int| 0 <= k < generated(tagged, target, limit, seed).len() implies {
        let e = #[trigger] generated(tagged, target, limit, seed)[k];
        e.2 == target && e.1 == join_words(e.0)
    } by {
        lemma_flatten_member(parts, k);
        let (i, j) = choose|i: int, j: int|
            0 <= i < parts.len() && 0 <= j < parts[i].len() && #[trigger] parts[i][j]
                == parts.flatten()[k];
        law_template_result(template_table()[i], pos_index_of(tagged), target, limit, seed);
        assert(drawn_from(parts[i][j], slot_candidates(pos_index_of(tagged), template_table()[i]), target));
    }
}

/// Whether some tagged word has text `w` and part of speech `p`.
pub open spec fn tagged_as(tagged: Seq<TaggedWord>, w: Seq<char>, p: POS) -> bool {
    exists|m: int| 0 <= m < tagged.len() && (#[trigger] tagged[m]).text@ == w && tagged[m].pos == p
}

/// Whether the words of `e` fill `slots` one for one, each with a tagged word of the slot's
/// part of speech.
pub open spec fn fills_slots(
    e: (Seq<Seq<char>>, Seq<char>, u64),
    tagged: Seq<TaggedWord>,
    slots: Seq<POS>,
) -> bool {
    &&& e.0.len() == slots.len()
    &&& forall|j: int| 0 <= j < slots.len() ==> tagged_as(tagged, #[trigger] e.0[j], slots[j])
}

/// Different parts of speech have different positions in the candidate index.
proof fn lemma_pos_slot_injective(p: POS, q: POS)
    ensures
        pos_slot(p) == pos_slot(q) ==> p == q,
        0 <= pos_slot(p) < 9,
{
}

/// Every candidate at position `k` comes from a tagged word whose part of speech sits at `k`.
proof fn lemma_candidate_source(ts: Seq<TaggedWord>, k: int, i: int)
    requires
        0 <= i < candidates_of(ts, k).len(),
    ensures
        exists|m: int|
            0 <= m < ts.len() && (#[trigger] ts[m]).text@ == candidates_of(ts, k)[i].0 && pos_slot(
                ts[m].pos,
            ) == k,
    decreases ts.len(),
{
    let init = ts.drop_last();
    let rest = candidates_of(init, k);
    if i < rest.len() {
        lemma_candidate_source(init, k, i);
        let m = choose|m: int|
            0 <= m < init.len() && (#[trigger] init[m]).text@ == rest[i].0 && pos_slot(init[m].pos)
                == k;
        assert(ts[m] == init[m]);
    } else {
        assert(ts[ts.len() - 1] == ts.last());
    }
}

/// Every word of a generated phrase has the part of speech of its template slot: each phrase
/// fills one of the templates, word by word, with tagged words of the slot's part of speech.
pub proof fn law_generated_words_fit_their_slots(
    tagged: Seq<TaggedWord>,
    target: u64,
    limit: int,
    seed: usize,
)
    ensures
        forall|k: int|
            0 <= k < generated(tagged, target, limit, seed).len() ==> exists|t: int|
                0 <= t < template_table().len() && fills_slots(
                    #[trigger] generated(tagged, target, limit, seed)[k],
                    tagged,
                    template_table()[t],
                ),
{
    let index = pos_index_of(tagged);
    let parts = Seq::new(
        template_table().len(),
        |i: int| template_result(template_table()[i], index, target, limit, seed),
    );
    assert forall|k: int| 0 <= k < generated(tagged, target, limit, seed).len() implies exists|
        t: int,
    |
        0 <= t < template_table().len() && fills_slots(
            #[trigger] generated(tagged, target, limit, seed)[k],
            tagged,
            template_table()[t],
        ) by {
        lemma_flatten_member(parts, k);
        let (i, j) = choose|i: int, j: int|
            0 <= i < parts.len() && 0 <= j < parts[i].len() && #[trigger] parts[i][j]
                == parts.flatten()[k];
        let slots = template_table()[i];
        let cands = slot_candidates(index, slots);
        let e = parts[i][j];
        law_template_result(slots, index, target, limit, seed);
        assert(drawn_from(e, cands, target));
        assert forall|q: int| 0 <= q < slots.len() implies tagged_as(
            tagged,
            #[trigger] e.0[q],
            slots[q],
        ) by {
            assert(is_candidate(cands[q], e.0[q]));
            lemma_pos_slot_injective(slots[q], slots[q]);
            let kk = pos_slot(slots[q]);
            assert(cands[q] == candidates_of(tagged, kk));
            let m = choose|m: int| 0 <= m < cands[q].len() && (#[trigger] cands[q][m]).0 == e.0[q];
            lemma_candidate_source(tagged, kk, m);
            let w = choose|w: int|
                0 <= w < tagged.len() && (#[trigger] tagged[w]).text@ == candidates_of(tagged, kk)[m].0
                    && pos_slot(tagged[w].pos) == kk;
            lemma_pos_slot_injective(tagged[w].pos, slots[q]);
            assert(tagged[w].pos == slots[q]);
        }
        assert(fills_slots(e, tagged, slots));
        assert(e == generated(tagged, target, limit, seed)[k]);
    }
}

/// Runs `template_phrases` on every template with rayon's `par_iter`, `map` and
/// `collect_into_vec`. The results come back in the templates' order, as rayon documents for
/// `collect_into_vec`; each is what `template_phrases` promises for its template.
#[verifier::external_body]
fn phrases_per_template(
    tmpls: &Vec<Template>,
    pos_index: &Vec<Vec<(String, u64)>>,
    target: u64,
    limit: usize,
    seed: usize,
) -> (r: Vec<Vec<GeneratedPhrase>>)
    requires
        forall|i: int| 0 <= i < tmpls@.len() ==> (#[trigger] tmpls@[i]).slots@.len() * 17 <= usize::MAX,
    ensures
        r@.len() == tmpls@.len(),
        forall|i: int|
            0 <= i < tmpls@.len() ==> phrases_view((#[trigger] r@[i])@) == template_result(
                tmpls@[i].slots@,
                pos_index.deep_view(),
                target,
                limit as int,
                seed,
            ),
{
    let mut out = Vec::new();
    tmpls.par_iter().map(|t| template_phrases(t, pos_index, target, limit, seed)).collect_into_vec(
        &mut out,
    );
    out
}

/// The phrases of every template for `target`, template by template.
pub open spec fn generated(tagged: Seq<TaggedWord>, target: u64, limit: int, seed: usize) -> Seq<
    (Seq<Seq<char>>, Seq<char>, u64),
> {
    Seq::new(
        template_table().len(),
        |i: int| template_result(template_table()[i], pos_index_of(tagged), target, limit, seed),
    ).flatten()
}

/// Generates phrases whose English value is `target` from the tagged words, sampling each
/// template's slots from `seed`; templates longer than `limit` words are skipped.
pub fn generate_with_seed(
    tagged_words: &[TaggedWord],
    target: u64,
    limit: usize,
    seed: usize,
) -> (r: Vec<GeneratedPhrase>)
    ensures
        phrases_view(r@) == generated(tagged_words@, target, limit as int, seed),
{
    let pos_index = build_pos_index(tagged_words);
    let tmpls = templates();
    let per = phrases_per_template(&tmpls, &pos_index, target, limit, seed);
    let ghost parts = Seq::new(
        template_table().len(),
        |i: int| template_result(template_table()[i], pos_index_of(tagged_words@), target, limit as int, seed),
    );
    let mut per = per;
    let ghost all = per@;
    let mut out: Vec<GeneratedPhrase> = Vec::new();
    assert(phrases_view(out@) =~= parts.take(0).flatten());
    let mut i: usize = 0;
    while per.len() > 0
        invariant
            all.len() == parts.len(),
            parts.len() == 9,
            forall|j: int| 0 <= j < all.len() ==> phrases_view((#[trigger] all[j])@) == parts[j],
            i <= all.len(),
            per@ == all.skip(i as int),
            phrases_view(out@) == parts.take(i as int).flatten(),
        decreases per@.len(),
    {
        let ghost before = out@;
        let mut part = per.remove(0);
        proof {
            assert(part == all[i as int]);
        }
        out.append(&mut part);
        proof {
            assert(parts.take(i + 1) == parts.take(i as int).push(parts[i as int]));
            parts.take(i as int).lemma_flatten_push(parts[i as int]);
            assert(phrases_view(out@) =~= phrases_view(before) + phrases_view(all[i as int]@));
            assert(per@ =~= all.skip(i + 1));
        }
        i += 1;
    }
    assert(parts.take(parts.len() as int) == parts);
    out
}

/// The system clock's time, `std::time::SystemTime`; opaque here.
#[verifier::external_type_specification]
#[verifier::external_body]
pub struct ExSystemTime(std::time::SystemTime);

/// Calls `SystemTime::now`. The time read depends on the clock alone: nothing is stated of it.
#[verifier::external_body]
fn system_now() -> (t: std::time::SystemTime) {
    std::time::SystemTime::now()
}

/// Calls `SystemTime::duration_since` with `UNIX_EPOCH`, giving `None` where it returns its
/// error (a time before the epoch). Nothing is stated of the duration: it depends on the clock.
#[verifier::external_body]
fn since_epoch(t: &std::time::SystemTime) -> (d: Option<std::time::Duration>) {
    t.duration_since(std::time::UNIX_EPOCH).ok()
}

/// Calls `Duration::subsec_nanos`, documented to return the fractional part of the duration
/// in nanoseconds, so a number below one billion.
#[verifier::external_body]
fn subsec_nanos(d: &std::time::Duration) -> (r: u32)
    ensures
        r < 1_000_000_000,
{
    d.subsec_nanos()
}

/// Reads the clock: the nanoseconds within the current second since `UNIX_EPOCH`, or 0 when
/// the clock reads before the epoch.
fn clock_nanos() -> (r: usize)
    ensures
        r < 1_000_000_000,
{
    let now = system_now();
    match since_epoch(&now) {
        Some(d) => subsec_nanos(&d) as usize,
        None => 0,
    }
}

/// Generates phrases whose English value is `target`, seeded from the clock so that each
/// session gives different phrases; the cipher argument is not used.
pub fn generate(tagged_words: &[TaggedWord], target: u64, _cipher: &Cipher, limit: usize) -> (r: Vec<
    GeneratedPhrase,
>)
    ensures
        exists|seed: usize|
            seed < 1_000_000_000 && phrases_view(r@) == #[trigger] generated(
                tagged_words@,
                target,
                limit as int,
                seed,
            ),
{
    let seed = clock_nanos();
    generate_with_seed(tagged_words, target, limit, seed)
}

} // verus!
