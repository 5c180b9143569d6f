use crate::matrix::Cipher;
use std::collections::HashMap;
use vstd::multiset::Multiset;
use vstd::prelude::*;

verus! {

broadcast use vstd::std_specs::hash::group_hash_axioms;

/// A=6, B=12 ... Z=156.
pub const ENGLISH: [u64; 26] = [
    6, 12, 18, 24, 30, 36, 42, 48, 54, 60, 66, 72, 78,
    84, 90, 96, 102, 108, 114, 120, 126, 132, 138, 144, 150, 156,
];

/// A=1, B=2 ... Z=26.
pub const SIMPLE: [u64; 26] = [
    1, 2, 3, 4, 5, 6, 7, 8, 9, 10, 11, 12, 13,
    14, 15, 16, 17, 18, 19, 20, 21, 22, 23, 24, 25, 26,
];

/// A=3, B=6 ... three times the letter's position, following the 3+6=9 pattern.
pub const MAJESTIC: [u64; 26] = [
    3, 6, 9, 12, 15, 18, 21, 24, 27, 30, 33, 36, 39,
    42, 45, 48, 51, 54, 57, 60, 63, 66, 69, 72, 75, 78,
];

/// Based on the numerology theory of 3+5=8.
pub const EIGHTS: [u64; 26] = [
    3, 5, 8, 16, 32, 40, 48, 54, 63, 69, 77, 80, 88,
    96, 104, 112, 120, 128, 136, 144, 152, 160, 168, 176, 184, 192,
];

/// Classical Hebrew-derived values, with J=600, V=700, W=900.
pub const JEWISH_PAIRS: [(char, u64); 26] = [
    ('a', 1), ('b', 2), ('c', 3), ('d', 4), ('e', 5), ('f', 6),
    ('g', 7), ('h', 8), ('i', 9), ('j', 600), ('k', 10), ('l', 20),
    ('m', 30), ('n', 40), ('o', 50), ('p', 60), ('q', 70), ('r', 80),
    ('s', 90), ('t', 100), ('u', 200), ('v', 700), ('w', 900), ('x', 300),
    ('y', 400), ('z', 500),
];

/// The mystery cipher: numerology of Saint Andrei.
pub const MYSTERY_PAIRS: [(char, u64); 26] = [
    ('a', 369), ('b', 3), ('c', 144), ('d', 6), ('e', 17), ('f', 9),
    ('g', 22), ('h', 222), ('i', 333), ('j', 300), ('k', 666), ('l', 600),
    ('m', 963), ('n', 900), ('o', 45), ('p', 47), ('q', 1776), ('r', 639),
    ('s', 1618), ('t', 60), ('u', 999), ('v', 434), ('w', 99), ('x', 88),
    ('y', 66), ('z', 33),
];

/// Two to the sixty-fourth: the modulus of `u64` arithmetic that wraps.
pub open spec fn two_pow_64() -> int {
    0x1_0000_0000_0000_0000
}

/// An unbounded sum reduced to a `u64` the way wrapping addition does.
pub open spec fn wrap64(x: int) -> u64 {
    (x % two_pow_64()) as u64
}

pub open spec fn is_ascii_lower(c: char) -> bool {
    'a' <= c && c <= 'z'
}

pub open spec fn is_ascii_upper(c: char) -> bool {
    'A' <= c && c <= 'Z'
}

pub open spec fn is_ascii_alpha(c: char) -> bool {
    is_ascii_lower(c) || is_ascii_upper(c)
}

/// Value that the extended table gives a non-ASCII letter of the supported languages.
/// Every cipher uses this same table for such letters.
pub open spec fn extended_char_value(c: char) -> Option<u64> {
    match c {
        // Romanian, both the comma and the older cedilla forms of s and t
        'ă' => Some(3),
        'â' => Some(6),
        'î' => Some(9),
        'ș' => Some(12),
        'ț' => Some(17),
        'ş' => Some(21),
        'ţ' => Some(33),
        // French
        'à' => Some(3),
        'æ' => Some(144),
        'ç' => Some(6),
        'è' => Some(9),
        'é' => Some(12),
        'ê' => Some(17),
        'ë' => Some(21),
        'ï' => Some(33),
        'ô' => Some(45),
        'œ' => Some(55),
        'ù' => Some(66),
        'û' => Some(77),
        'ü' => Some(88),
        // Spanish
        'á' => Some(3),
        'í' => Some(6),
        'ó' => Some(9),
        'ú' => Some(12),
        'ñ' => Some(17),
        // German
        'ä' => Some(3),
        'ö' => Some(6),
        'ß' => Some(9),
        // Italian
        'ì' => Some(17),
        'ò' => Some(76),
        _ => None,
    }
}

/// Looks up a char in the extended table of non-ASCII letters.
pub fn extended_value(c: char) -> (r: Option<u64>)
    ensures
        r == extended_char_value(c),
{
    match c {
        // Romanian, both the comma and the older cedilla forms of s and t
        'ă' => Some(3),
        'â' => Some(6),
        'î' => Some(9),
        'ș' => Some(12),
        'ț' => Some(17),
        'ş' => Some(21),
        'ţ' => Some(33),
        // French
        'à' => Some(3),
        'æ' => Some(144),
        'ç' => Some(6),
        'è' => Some(9),
        'é' => Some(12),
        'ê' => Some(17),
        'ë' => Some(21),
        'ï' => Some(33),
        'ô' => Some(45),
        'œ' => Some(55),
        'ù' => Some(66),
        'û' => Some(77),
        'ü' => Some(88),
        // Spanish
        'á' => Some(3),
        'í' => Some(6),
        'ó' => Some(9),
        'ú' => Some(12),
        'ñ' => Some(17),
        // German
        'ä' => Some(3),
        'ö' => Some(6),
        'ß' => Some(9),
        // Italian
        'ì' => Some(17),
        'ò' => Some(76),
        _ => None,
    }
}

/// Value that a char outside `a`..`z` contributes: its extended value, or nothing.
pub open spec fn extended_or_zero(c: char) -> u64 {
    match extended_char_value(c) {
        Some(v) => v,
        None => 0,
    }
}

/// Value of one letter under an array cipher, `None` for chars it ignores.
pub open spec fn array_char_value(table: Seq<u64>, c: char) -> u64 {
    if is_ascii_alpha(c) {
        table[(c as int) - ('a' as int)]
    } else {
        extended_or_zero(c)
    }
}

pub open spec fn array_sum(table: Seq<u64>, s: Seq<char>) -> int
    decreases s.len(),
{
    if s.len() == 0 {
        0
    } else {
        array_sum(table, s.drop_last()) + array_char_value(table, s.last())
    }
}

proof fn lemma_array_sum_nonneg(table: Seq<u64>, s: Seq<char>)
    ensures
        array_sum(table, s) >= 0,
    decreases s.len(),
{
    if s.len() > 0 {
        lemma_array_sum_nonneg(table, s.drop_last());
    }
}

/// Adding `v` to an unbounded sum and then wrapping agrees with wrapping addition.
pub(crate) proof fn lemma_wrap64_add(x: int, v: u64)
    requires
        x >= 0,
    ensures
        wrap64(x + v) == vstd::wrapping::u64_specs::wrapping_add(wrap64(x), v),
{
    let m = two_pow_64();
    let a = x % m;
    vstd::arithmetic::div_mod::lemma_add_mod_noop(x, v as int, m);
    vstd::arithmetic::div_mod::lemma_small_mod(v as nat, m as nat);
    if a + v < m {
        vstd::arithmetic::div_mod::lemma_small_mod((a + v) as nat, m as nat);
    } else {
        vstd::arithmetic::div_mod::lemma_small_mod((a + v - m) as nat, m as nat);
        vstd::arithmetic::div_mod::lemma_mod_sub_multiples_vanish(a + v, m);
    }
}

/// True for `A`..`Z` and `a`..`z`.
pub fn is_ascii_letter(c: char) -> (r: bool)
    ensures
        r == is_ascii_alpha(c),
{
    ('a' <= c && c <= 'z') || ('A' <= c && c <= 'Z')
}

fn compute_array(input: &str, table: &[u64; 26]) -> (r: u64)
    requires
        forall|i: int| 0 <= i < input@.len() ==> !is_ascii_upper(#[trigger] input@[i]),
    ensures
        r == wrap64(array_sum(table@, input@)),
{
    let mut acc: u64 = 0;
    for c in it: input.chars()
        invariant
            it.seq() == input@,
            forall|i: int| 0 <= i < input@.len() ==> !is_ascii_upper(#[trigger] input@[i]),
            acc == wrap64(array_sum(table@, input@.take(it.index()))),
    {
        let ghost prefix = input@.take(it.index());
        let v: u64 = if is_ascii_letter(c) {
            table[(c as u32 - 97) as usize]
        } else {
            match extended_value(c) {
                Some(x) => x,
                None => 0,
            }
        };
        proof {
            assert(input@.take(it.index() + 1).drop_last() == prefix);
            lemma_array_sum_nonneg(table@, prefix);
            lemma_wrap64_add(array_sum(table@, prefix), v);
        }
        acc = acc.wrapping_add(v);
    }
    assert(input@.take(input@.len() as int) == input@);
    acc
}

} // verus!

verus! {

/// Map that collecting `(char, value)` pairs gives, keyed by code point; a later pair wins.
pub open spec fn pairs_map(pairs: Seq<(char, u64)>) -> Map<u32, u64>
    decreases pairs.len(),
{
    if pairs.len() == 0 {
        Map::empty()
    } else {
        pairs_map(pairs.drop_last()).insert(pairs.last().0 as u32, pairs.last().1)
    }
}

/// Value of one char under a lookup-table cipher.
pub open spec fn table_char_value(table: Map<u32, u64>, c: char) -> u64 {
    if is_ascii_alpha(c) {
        if table.contains_key(c as u32) {
            table[c as u32]
        } else {
            0
        }
    } else {
        extended_or_zero(c)
    }
}

pub open spec fn table_sum(table: Map<u32, u64>, s: Seq<char>) -> int
    decreases s.len(),
{
    if s.len() == 0 {
        0
    } else {
        table_sum(table, s.drop_last()) + table_char_value(table, s.last())
    }
}

proof fn lemma_table_sum_nonneg(table: Map<u32, u64>, s: Seq<char>)
    ensures
        table_sum(table, s) >= 0,
    decreases s.len(),
{
    if s.len() > 0 {
        lemma_table_sum_nonneg(table, s.drop_last());
    }
}

fn build_table(pairs: &[(char, u64); 26]) -> (m: HashMap<u32, u64>)
    ensures
        m@ == pairs_map(pairs@),
{
    let mut m: HashMap<u32, u64> = HashMap::new();
    for i in 0..26
        invariant
            m@ == pairs_map(pairs@.take(i as int)),
    {
        let (c, v) = pairs[i];
        m.insert(c as u32, v);
        assert(pairs@.take(i + 1).drop_last() == pairs@.take(i as int));
    }
    assert(pairs@.take(26) == pairs@);
    m
}

fn compute_table(input: &str, table: &HashMap<u32, u64>) -> (r: u64)
    ensures
        r == wrap64(table_sum(table@, input@)),
{
    let mut acc: u64 = 0;
    for c in it: input.chars()
        invariant
            it.seq() == input@,
            acc == wrap64(table_sum(table@, input@.take(it.index()))),
    {
        let ghost prefix = input@.take(it.index());
        let v: u64 = if is_ascii_letter(c) {
            match table.get(&(c as u32)) {
                Some(x) => *x,
                None => 0,
            }
        } else {
            match extended_value(c) {
                Some(x) => x,
                None => 0,
            }
        };
        proof {
            assert(input@.take(it.index() + 1).drop_last() == prefix);
            lemma_table_sum_nonneg(table@, prefix);
            lemma_wrap64_add(table_sum(table@, prefix), v);
        }
        acc = acc.wrapping_add(v);
    }
    assert(input@.take(input@.len() as int) == input@);
    acc
}

} // verus!

verus! {

/// Lookup table of the Jewish cipher, keyed by code point.
pub fn jewish_table() -> (m: HashMap<u32, u64>)
    ensures
        m@ == pairs_map(JEWISH_PAIRS@),
{
    build_table(&JEWISH_PAIRS)
}

/// Lookup table of the mystery cipher, keyed by code point.
pub fn mystery_table() -> (m: HashMap<u32, u64>)
    ensures
        m@ == pairs_map(MYSTERY_PAIRS@),
{
    build_table(&MYSTERY_PAIRS)
}

/// ASCII lowercase of one char; every other char is left as it is.
pub open spec fn ascii_lower_char(c: char) -> char {
    if is_ascii_upper(c) {
        ((c as u32) + 32) as char
    } else {
        c
    }
}

pub open spec fn ascii_lower_seq(s: Seq<char>) -> Seq<char> {
    Seq::new(s.len(), |i: int| ascii_lower_char(s[i]))
}

/// The chars of the string that `str::to_lowercase` returns for a string with chars `s`
/// (the Unicode lowercase mapping of each char, which may expand one char into several).
pub uninterp spec fn lowercase(s: Seq<char>) -> Seq<char>;

/// Capital forms of the extended letters, with the letter each one lowercases to.
pub open spec fn extended_capital_lower(c: char) -> Option<char> {
    match c {
        'Ă' => Some('ă'),
        'Â' => Some('â'),
        'Î' => Some('î'),
        'Ș' => Some('ș'),
        'Ț' => Some('ț'),
        'Ş' => Some('ş'),
        'Ţ' => Some('ţ'),
        'À' => Some('à'),
        'Æ' => Some('æ'),
        'Ç' => Some('ç'),
        'È' => Some('è'),
        'É' => Some('é'),
        'Ê' => Some('ê'),
        'Ë' => Some('ë'),
        'Ï' => Some('ï'),
        'Ô' => Some('ô'),
        'Œ' => Some('œ'),
        'Ù' => Some('ù'),
        'Û' => Some('û'),
        'Ü' => Some('ü'),
        'Á' => Some('á'),
        'Í' => Some('í'),
        'Ó' => Some('ó'),
        'Ú' => Some('ú'),
        'Ñ' => Some('ñ'),
        'Ä' => Some('ä'),
        'Ö' => Some('ö'),
        'ẞ' => Some('ß'),
        'Ì' => Some('ì'),
        'Ò' => Some('ò'),
        _ => None,
    }
}

/// Lowercase of a char of the supported alphabet: ASCII chars by the ASCII mapping, the
/// extended letters stay as they are, their capitals become them; `None` for other chars.
pub open spec fn known_lower(c: char) -> Option<char> {
    if '\0' <= c <= '\u{7f}' {
        Some(ascii_lower_char(c))
    } else if extended_char_value(c) is Some {
        Some(c)
    } else {
        extended_capital_lower(c)
    }
}

/// Whether every char of `s` belongs to the supported alphabet.
pub open spec fn is_known_text(s: Seq<char>) -> bool {
    forall|i: int| 0 <= i < s.len() ==> (#[trigger] known_lower(s[i])) is Some
}

/// The char-by-char lowercase of a text of the supported alphabet.
pub open spec fn known_lower_seq(s: Seq<char>) -> Seq<char> {
    Seq::new(s.len(), |i: int| known_lower(s[i])->0)
}

/// Calls `str::to_lowercase`. Its result is named `lowercase` of the input's chars. Beside
/// the name two facts of the documented behaviour are stated: the result holds no ASCII
/// capital letter (every capital letter has a lowercase mapping), and a text made of ASCII
/// chars, the extended letters and their capitals is lowercased char by char (each of these
/// chars has a one-char lowercase mapping). What other chars become is left unsaid.
#[verifier::external_body]
pub(crate) fn to_lowercase(s: &str) -> (r: String)
    ensures
        r@ == lowercase(s@),
        forall|i: int| 0 <= i < r@.len() ==> !is_ascii_upper(#[trigger] r@[i]),
        is_known_text(s@) ==> r@ == known_lower_seq(s@),
{
    s.to_lowercase()
}

/// ASCII text belongs to the supported alphabet, and its lowercase is its ASCII lowercase.
pub(crate) proof fn lemma_ascii_is_known(s: Seq<char>)
    requires
        vstd::utf8::is_ascii_chars(s),
    ensures
        is_known_text(s),
        known_lower_seq(s) == ascii_lower_seq(s),
{
    assert forall|i: int| 0 <= i < s.len() implies (#[trigger] known_lower(s[i])) is Some by {
        assert('\0' <= s[i] <= '\u{7f}');
    }
    assert forall|i: int| 0 <= i < s.len() implies known_lower_seq(s)[i] == ascii_lower_seq(s)[i] by {
        assert('\0' <= s[i] <= '\u{7f}');
    }
    assert(known_lower_seq(s) =~= ascii_lower_seq(s));
}

/// Value of an already lowercased char sequence under one cipher; sums wrap at 2^64.
pub open spec fn cipher_value_of(cipher: Cipher, lower: Seq<char>) -> u64 {
    match cipher {
        Cipher::English => wrap64(array_sum(ENGLISH@, lower)),
        Cipher::Jewish => wrap64(table_sum(pairs_map(JEWISH_PAIRS@), lower)),
        Cipher::Simple => wrap64(array_sum(SIMPLE@, lower)),
        Cipher::Mystery => wrap64(table_sum(pairs_map(MYSTERY_PAIRS@), lower)),
        Cipher::Majestic => wrap64(array_sum(MAJESTIC@, lower)),
        Cipher::Eights => wrap64(array_sum(EIGHTS@, lower)),
    }
}

/// Value of an input under one cipher: the input is lowercased first.
pub open spec fn gematria_value(cipher: Cipher, input: Seq<char>) -> u64 {
    cipher_value_of(cipher, lowercase(input))
}

/// The six cipher values of a word or phrase, beside the text they were computed from.
#[derive(Debug, Clone)]
pub struct Gematria {
    pub original: String,
    pub english: u64,
    pub jewish: u64,
    pub simple: u64,
    pub mystery: u64,
    pub majestic: u64,
    pub eights: u64,
}

impl Gematria {
    pub open spec fn value_of(&self, cipher: Cipher) -> u64 {
        match cipher {
            Cipher::English => self.english,
            Cipher::Jewish => self.jewish,
            Cipher::Simple => self.simple,
            Cipher::Mystery => self.mystery,
            Cipher::Majestic => self.majestic,
            Cipher::Eights => self.eights,
        }
    }

    /// Whether these are exactly the values that `calculate` gives for `input`. The
    /// lowercased form that the values are computed from holds no ASCII capital, is the
    /// ASCII lowercase of the input when the input is ASCII, and is its char-by-char
    /// lowercase when the input is made of ASCII chars, extended letters and their capitals.
    pub open spec fn computed_from(&self, input: Seq<char>) -> bool {
        &&& self.original@ == input
        &&& forall|c: Cipher| #[trigger] self.value_of(c) == gematria_value(c, input)
        &&& forall|i: int|
            0 <= i < lowercase(input).len() ==> !is_ascii_upper(#[trigger] lowercase(input)[i])
        &&& vstd::utf8::is_ascii_chars(input) ==> lowercase(input) == ascii_lower_seq(input)
        &&& is_known_text(input) ==> lowercase(input) == known_lower_seq(input)
    }

    /// The value under one cipher.
    pub fn value(&self, cipher: &Cipher) -> (r: u64)
        ensures
            r == self.value_of(*cipher),
    {
        match cipher {
            Cipher::English => self.english,
            Cipher::Jewish => self.jewish,
            Cipher::Simple => self.simple,
            Cipher::Mystery => self.mystery,
            Cipher::Majestic => self.majestic,
            Cipher::Eights => self.eights,
        }
    }
}

/// Computes all six cipher values of `input`, after lowercasing it.
pub fn calculate(input: &str) -> (g: Gematria)
    ensures
        g.computed_from(input@),
{
    let lower = to_lowercase(input);
    proof {
        if vstd::utf8::is_ascii_chars(input@) {
            lemma_ascii_is_known(input@);
        }
    }
    let g = Gematria {
        original: String::from_str(input),
        english: compute_array(lower.as_str(), &ENGLISH),
        simple: compute_array(lower.as_str(), &SIMPLE),
        majestic: compute_array(lower.as_str(), &MAJESTIC),
        eights: compute_array(lower.as_str(), &EIGHTS),
        jewish: compute_table(lower.as_str(), &jewish_table()),
        mystery: compute_table(lower.as_str(), &mystery_table()),
    };
    assert forall|c: Cipher| #[trigger] g.value_of(c) == gematria_value(c, input@) by {
        match c {
            Cipher::English => {},
            Cipher::Jewish => {},
            Cipher::Simple => {},
            Cipher::Mystery => {},
            Cipher::Majestic => {},
            Cipher::Eights => {},
        }
    }
    g
}

} // verus!

verus! {

/// Calls `String::push`, which appends one char to the string.
#[verifier::external_body]
pub(crate) fn push_char(s: &mut String, c: char)
    ensures
        final(s)@ == old(s)@.push(c),
{
    s.push(c);
}

/// Folds the Romanian letters onto their base letters: ă and â to a, î to i,
/// ș and ş to s, ț and ţ to t; every other char is kept.
pub open spec fn normalize_char(c: char) -> char {
    match c {
        'ă' | 'â' => 'a',
        'î' => 'i',
        'ș' | 'ş' => 's',
        'ț' | 'ţ' => 't',
        _ => c,
    }
}

pub open spec fn normalize_seq(s: Seq<char>) -> Seq<char> {
    Seq::new(s.len(), |i: int| normalize_char(s[i]))
}

/// Replaces each Romanian letter of the input by its base letter.
pub fn normalize(input: &str) -> (r: String)
    ensures
        r@ == normalize_seq(input@),
{
    let mut out = String::new();
    for c in it: input.chars()
        invariant
            it.seq() == input@,
            out@ == normalize_seq(input@.take(it.index())),
    {
        let n = match c {
            'ă' | 'â' => 'a',
            'î' => 'i',
            'ș' | 'ş' => 's',
            'ț' | 'ţ' => 't',
            _ => c,
        };
        push_char(&mut out, n);
        assert(out@ =~= normalize_seq(input@.take(it.index() + 1)));
    }
    assert(input@.take(input@.len() as int) == input@);
    out
}

} // verus!

verus! {

/// The alphabet ciphers follow their formulas: Simple gives a letter its position in the
/// alphabet (A=1 ... Z=26), English six times that (A=6 ... Z=156), Majestic three times
/// that (A=3 ... Z=78); every letter has a positive value under each array cipher.
pub proof fn law_table_formulas()
    ensures
        forall|i: int| 0 <= i < 26 ==> #[trigger] SIMPLE@[i] == i + 1,
        forall|i: int| 0 <= i < 26 ==> #[trigger] ENGLISH@[i] == 6 * (i + 1),
        forall|i: int| 0 <= i < 26 ==> #[trigger] MAJESTIC@[i] == 3 * (i + 1),
        forall|i: int| 0 <= i < 26 ==> 3 <= #[trigger] EIGHTS@[i] <= 192,
{
}

/// The lookup-table ciphers give every lowercase letter a value, and a positive one.
pub proof fn law_pair_tables()
    ensures
        forall|i: int|
            0 <= i < 26 ==> (#[trigger] JEWISH_PAIRS@[i]).0 as int == 97 + i && 0 < JEWISH_PAIRS@[i].1 <= 900,
        forall|i: int|
            0 <= i < 26 ==> (#[trigger] MYSTERY_PAIRS@[i]).0 as int == 97 + i && 0 < MYSTERY_PAIRS@[i].1 <= 1776,
{
}

} // verus!

verus! {

proof fn lemma_array_sum_append(table: Seq<u64>, a: Seq<char>, b: Seq<char>)
    ensures
        array_sum(table, a + b) == array_sum(table, a) + array_sum(table, b),
    decreases b.len(),
{
    if b.len() == 0 {
        assert(a + b == a);
    } else {
        lemma_array_sum_append(table, a, b.drop_last());
        assert((a + b).drop_last() == a + b.drop_last());
    }
}

proof fn lemma_table_sum_append(table: Map<u32, u64>, a: Seq<char>, b: Seq<char>)
    ensures
        table_sum(table, a + b) == table_sum(table, a) + table_sum(table, b),
    decreases b.len(),
{
    if b.len() == 0 {
        assert(a + b == a);
    } else {
        lemma_table_sum_append(table, a, b.drop_last());
        assert((a + b).drop_last() == a + b.drop_last());
    }
}

/// Every cipher value of the concatenation of two lowercased texts is the wrapped sum of
/// their unwrapped sums.
proof fn lemma_values_append(c: Cipher, a: Seq<char>, b: Seq<char>)
    ensures
        cipher_value_of(c, a + b) == match c {
            Cipher::English => wrap64(array_sum(ENGLISH@, a) + array_sum(ENGLISH@, b)),
            Cipher::Jewish => wrap64(
                table_sum(pairs_map(JEWISH_PAIRS@), a) + table_sum(pairs_map(JEWISH_PAIRS@), b),
            ),
            Cipher::Simple => wrap64(array_sum(SIMPLE@, a) + array_sum(SIMPLE@, b)),
            Cipher::Mystery => wrap64(
                table_sum(pairs_map(MYSTERY_PAIRS@), a) + table_sum(pairs_map(MYSTERY_PAIRS@), b),
            ),
            Cipher::Majestic => wrap64(array_sum(MAJESTIC@, a) + array_sum(MAJESTIC@, b)),
            Cipher::Eights => wrap64(array_sum(EIGHTS@, a) + array_sum(EIGHTS@, b)),
        },
{
    lemma_array_sum_append(ENGLISH@, a, b);
    lemma_array_sum_append(SIMPLE@, a, b);
    lemma_array_sum_append(MAJESTIC@, a, b);
    lemma_array_sum_append(EIGHTS@, a, b);
    lemma_table_sum_append(pairs_map(JEWISH_PAIRS@), a, b);
    lemma_table_sum_append(pairs_map(MYSTERY_PAIRS@), a, b);
}

/// Letter case does not matter: two texts of ASCII chars, extended letters and their
/// capitals that are equal up to the case of their letters get the same value under every
/// cipher.
pub proof fn law_case_insensitive(g: Gematria, h: Gematria, s: Seq<char>, t: Seq<char>)
    requires
        g.computed_from(s),
        h.computed_from(t),
        is_known_text(s),
        is_known_text(t),
        known_lower_seq(s) == known_lower_seq(t),
    ensures
        forall|c: Cipher| #[trigger] g.value_of(c) == h.value_of(c),
{
    assert forall|c: Cipher| #[trigger] g.value_of(c) == h.value_of(c) by {
        assert(g.value_of(c) == gematria_value(c, s));
        assert(h.value_of(c) == gematria_value(c, t));
    }
}

/// Spaces, digits and punctuation do not count: putting an ASCII char that is not a letter
/// between two texts of ASCII chars, extended letters and their capitals leaves every value
/// as it is for the two texts written together.
pub proof fn law_non_letter_adds_nothing(
    g: Gematria,
    h: Gematria,
    a: Seq<char>,
    b: Seq<char>,
    sep: char,
)
    requires
        g.computed_from(a + seq![sep] + b),
        h.computed_from(a + b),
        is_known_text(a),
        is_known_text(b),
        '\0' <= sep <= '\u{7f}',
        !is_ascii_alpha(sep),
    ensures
        forall|c: Cipher| #[trigger] g.value_of(c) == h.value_of(c),
{
    let sp = seq![sep];
    let spaced = a + sp + b;
    let joined = a + b;
    lemma_ascii_is_known(sp);
    assert(known_lower_seq(sp) =~= sp);
    lemma_known_concat(a, sp);
    lemma_known_concat(a + sp, b);
    lemma_known_concat(a, b);
    let la = known_lower_seq(a);
    let lb = known_lower_seq(b);
    assert(known_lower_seq(spaced) =~= la + (sp + lb));
    assert(known_lower_seq(joined) =~= la + lb);
    assert(sp.drop_last() =~= Seq::<char>::empty());
    assert(sp.last() == sep);
    lemma_ascii_not_extended(sep);
    assert(extended_or_zero(sep) == 0);
    assert(array_sum(ENGLISH@, sp.drop_last()) == 0);
    assert(array_sum(SIMPLE@, sp.drop_last()) == 0);
    assert(array_sum(MAJESTIC@, sp.drop_last()) == 0);
    assert(array_sum(EIGHTS@, sp.drop_last()) == 0);
    assert(table_sum(pairs_map(JEWISH_PAIRS@), sp.drop_last()) == 0);
    assert(table_sum(pairs_map(MYSTERY_PAIRS@), sp.drop_last()) == 0);
    assert(array_sum(ENGLISH@, sp) == 0);
    assert(array_sum(SIMPLE@, sp) == 0);
    assert(array_sum(MAJESTIC@, sp) == 0);
    assert(array_sum(EIGHTS@, sp) == 0);
    assert(table_sum(pairs_map(JEWISH_PAIRS@), sp) == 0);
    assert(table_sum(pairs_map(MYSTERY_PAIRS@), sp) == 0);
    lemma_array_sum_append(ENGLISH@, sp, lb);
    lemma_array_sum_append(SIMPLE@, sp, lb);
    lemma_array_sum_append(MAJESTIC@, sp, lb);
    lemma_array_sum_append(EIGHTS@, sp, lb);
    lemma_table_sum_append(pairs_map(JEWISH_PAIRS@), sp, lb);
    lemma_table_sum_append(pairs_map(MYSTERY_PAIRS@), sp, lb);
    assert(lowercase(spaced) == la + (sp + lb));
    assert(lowercase(joined) == la + lb);
    assert forall|c: Cipher| #[trigger] g.value_of(c) == h.value_of(c) by {
        lemma_values_append(c, la, sp + lb);
        lemma_values_append(c, la, lb);
        assert(g.value_of(c) == cipher_value_of(c, la + (sp + lb)));
        assert(h.value_of(c) == cipher_value_of(c, la + lb));
    }
}

/// Texts of the supported alphabet stay so when written together, and are lowercased part
/// by part.
proof fn lemma_known_concat(a: Seq<char>, b: Seq<char>)
    requires
        is_known_text(a),
        is_known_text(b),
    ensures
        is_known_text(a + b),
        known_lower_seq(a + b) == known_lower_seq(a) + known_lower_seq(b),
{
    let ab = a + b;
    assert forall|i: int| 0 <= i < ab.len() implies (#[trigger] known_lower(ab[i])) is Some by {
        if i < a.len() {
            assert(ab[i] == a[i]);
        } else {
            assert(ab[i] == b[i - a.len()]);
        }
    }
    assert(known_lower_seq(a + b) =~= known_lower_seq(a) + known_lower_seq(b));
}

/// Each letter of the extended table counts its own value under every cipher, and so does
/// its capital: a text of that one char is worth the value that the table gives the letter.
pub proof fn law_extended_letter_value(g: Gematria, c: char)
    requires
        g.computed_from(seq![c]),
        extended_char_value(c) is Some || extended_capital_lower(c) is Some,
    ensures
        extended_char_value(known_lower(c)->0) is Some,
        forall|k: Cipher| #[trigger] g.value_of(k) == extended_char_value(known_lower(c)->0)->0,
{
    let s = seq![c];
    let l = known_lower(c)->0;
    assert(known_lower(s[0]) is Some);
    assert(is_known_text(s));
    assert(known_lower_seq(s) =~= seq![l]);
    assert(lowercase(s) == seq![l]);
    let v = extended_char_value(l)->0;
    assert(extended_or_zero(l) == v);
    assert(!is_ascii_alpha(l));
    let one = seq![l];
    assert(one.drop_last() =~= Seq::<char>::empty());
    assert(one.last() == l);
    assert(array_sum(ENGLISH@, one.drop_last()) == 0);
    assert(array_sum(SIMPLE@, one.drop_last()) == 0);
    assert(array_sum(MAJESTIC@, one.drop_last()) == 0);
    assert(array_sum(EIGHTS@, one.drop_last()) == 0);
    assert(array_char_value(ENGLISH@, l) == v);
    assert(array_char_value(SIMPLE@, l) == v);
    assert(array_char_value(MAJESTIC@, l) == v);
    assert(array_char_value(EIGHTS@, l) == v);
    assert(table_sum(pairs_map(JEWISH_PAIRS@), one.drop_last()) == 0);
    assert(table_sum(pairs_map(MYSTERY_PAIRS@), one.drop_last()) == 0);
    assert(table_char_value(pairs_map(JEWISH_PAIRS@), l) == v);
    assert(table_char_value(pairs_map(MYSTERY_PAIRS@), l) == v);
    assert(array_sum(ENGLISH@, one) == v);
    assert(array_sum(SIMPLE@, one) == v);
    assert(array_sum(MAJESTIC@, one) == v);
    assert(array_sum(EIGHTS@, one) == v);
    assert(table_sum(pairs_map(JEWISH_PAIRS@), one) == v);
    assert(table_sum(pairs_map(MYSTERY_PAIRS@), one) == v);
    vstd::arithmetic::div_mod::lemma_small_mod(v as nat, two_pow_64() as nat);
    assert forall|k: Cipher| #[trigger] g.value_of(k) == v by {
        assert(g.value_of(k) == gematria_value(k, s));
    }
}

/// Whether every cipher value of `g` is `v`.
pub open spec fn all_values(g: Gematria, v: u64) -> bool {
    forall|k: Cipher| #[trigger] g.value_of(k) == v
}

/// The Languages table: a text of a single extended letter, or of its capital, is worth the
/// letter's own value under every cipher: ă 3, â 6, î 9, ș 12, ț 17, ş 21, ţ 33, à 3,
/// æ 144, ç 6, è 9, é 12, ê 17, ë 21, ï 33, ô 45, œ 55, ù 66, û 77, ü 88, á 3, í 6, ó 9,
/// ú 12, ñ 17, ä 3, ö 6, ß 9, ì 17, ò 76.
pub proof fn law_extended_letter_table(g: Gematria, c: char)
    requires
        g.computed_from(seq![c]),
    ensures
        c == 'ă' || c == 'Ă' ==> all_values(g, 3),
        c == 'â' || c == 'Â' ==> all_values(g, 6),
        c == 'î' || c == 'Î' ==> all_values(g, 9),
        c == 'ș' || c == 'Ș' ==> all_values(g, 12),
        c == 'ț' || c == 'Ț' ==> all_values(g, 17),
        c == 'ş' || c == 'Ş' ==> all_values(g, 21),
        c == 'ţ' || c == 'Ţ' ==> all_values(g, 33),
        c == 'à' || c == 'À' ==> all_values(g, 3),
        c == 'æ' || c == 'Æ' ==> all_values(g, 144),
        c == 'ç' || c == 'Ç' ==> all_values(g, 6),
        c == 'è' || c == 'È' ==> all_values(g, 9),
        c == 'é' || c == 'É' ==> all_values(g, 12),
        c == 'ê' || c == 'Ê' ==> all_values(g, 17),
        c == 'ë' || c == 'Ë' ==> all_values(g, 21),
        c == 'ï' || c == 'Ï' ==> all_values(g, 33),
        c == 'ô' || c == 'Ô' ==> all_values(g, 45),
        c == 'œ' || c == 'Œ' ==> all_values(g, 55),
        c == 'ù' || c == 'Ù' ==> all_values(g, 66),
        c == 'û' || c == 'Û' ==> all_values(g, 77),
        c == 'ü' || c == 'Ü' ==> all_values(g, 88),
        c == 'á' || c == 'Á' ==> all_values(g, 3),
        c == 'í' || c == 'Í' ==> all_values(g, 6),
        c == 'ó' || c == 'Ó' ==> all_values(g, 9),
        c == 'ú' || c == 'Ú' ==> all_values(g, 12),
        c == 'ñ' || c == 'Ñ' ==> all_values(g, 17),
        c == 'ä' || c == 'Ä' ==> all_values(g, 3),
        c == 'ö' || c == 'Ö' ==> all_values(g, 6),
        c == 'ß' || c == 'ẞ' ==> all_values(g, 9),
        c == 'ì' || c == 'Ì' ==> all_values(g, 17),
        c == 'ò' || c == 'Ò' ==> all_values(g, 76),
{
    if extended_char_value(c) is Some || extended_capital_lower(c) is Some {
        law_extended_letter_value(g, c);
    }
}

/// The empty text is worth nothing under every cipher.
pub proof fn law_empty_is_zero(g: Gematria)
    requires
        g.computed_from(Seq::empty()),
    ensures
        forall|c: Cipher| #[trigger] g.value_of(c) == 0,
{
    assert(vstd::utf8::is_ascii_chars(Seq::<char>::empty()));
    assert(ascii_lower_seq(Seq::<char>::empty()) =~= Seq::<char>::empty());
    assert forall|c: Cipher| #[trigger] g.value_of(c) == 0 by {
        assert(g.value_of(c) == gematria_value(c, Seq::empty()));
    }
}

} // verus!

verus! {

/// ASCII chars have no extended value.
proof fn lemma_ascii_not_extended(c: char)
    requires
        '\0' <= c <= '\u{7f}',
    ensures
        extended_char_value(c) is None,
{
}

proof fn lemma_english_simple_sums(l: Seq<char>)
    requires
        vstd::utf8::is_ascii_chars(l),
        forall|i: int| 0 <= i < l.len() ==> !is_ascii_upper(#[trigger] l[i]),
    ensures
        array_sum(ENGLISH@, l) == 6 * array_sum(SIMPLE@, l),
        0 <= array_sum(SIMPLE@, l) <= 26 * l.len(),
    decreases l.len(),
{
    if l.len() > 0 {
        let init = l.drop_last();
        assert(vstd::utf8::is_ascii_chars(init)) by {
            assert forall|i: int| 0 <= i < init.len() implies '\0' <= #[trigger] init[i] <= '\u{7f}' by {
                assert(init[i] == l[i]);
            }
        }
        assert forall|i: int| 0 <= i < init.len() implies !is_ascii_upper(#[trigger] init[i]) by {
            assert(init[i] == l[i]);
        }
        lemma_english_simple_sums(init);
        let c = l.last();
        assert(l[l.len() - 1] == c);
        law_table_formulas();
        if !is_ascii_alpha(c) {
            lemma_ascii_not_extended(c);
        }
    }
}

/// For ASCII text the English value is six times the Simple value, so a multiple of six.
/// (Beyond ASCII it need not be: `ă` is worth 3 under every cipher.)
pub proof fn law_english_is_six_times_simple(g: Gematria, s: Seq<char>)
    requires
        g.computed_from(s),
        vstd::utf8::is_ascii_chars(s),
        s.len() <= 100_000_000_000_000_000,
    ensures
        g.english == 6 * g.simple,
        g.english % 6 == 0,
{
    let l = ascii_lower_seq(s);
    assert(lowercase(s) == l);
    assert(vstd::utf8::is_ascii_chars(l)) by {
        assert forall|i: int| 0 <= i < l.len() implies '\0' <= #[trigger] l[i] <= '\u{7f}' by {
            assert('\0' <= s[i] <= '\u{7f}');
        }
    }
    lemma_english_simple_sums(l);
    let x = array_sum(SIMPLE@, l);
    assert(g.value_of(Cipher::English) == gematria_value(Cipher::English, s));
    assert(g.value_of(Cipher::Simple) == gematria_value(Cipher::Simple, s));
    vstd::arithmetic::div_mod::lemma_small_mod(x as nat, two_pow_64() as nat);
    vstd::arithmetic::div_mod::lemma_small_mod((6 * x) as nat, two_pow_64() as nat);
}

proof fn lemma_pairs_map_values(p: Seq<(char, u64)>, k: u32)
    requires
        forall|i: int| 0 <= i < p.len() ==> 1 <= (#[trigger] p[i]).1 <= 1776,
    ensures
        (exists|i: int| 0 <= i < p.len() && (#[trigger] p[i]).0 as u32 == k) ==> pairs_map(
            p,
        ).contains_key(k),
        pairs_map(p).contains_key(k) ==> 1 <= pairs_map(p)[k] <= 1776,
    decreases p.len(),
{
    if p.len() > 0 {
        let init = p.drop_last();
        assert forall|i: int| 0 <= i < init.len() implies 1 <= (#[trigger] init[i]).1 <= 1776 by {
            assert(init[i] == p[i]);
        }
        lemma_pairs_map_values(init, k);
        if exists|i: int| 0 <= i < p.len() && (#[trigger] p[i]).0 as u32 == k {
            let i = choose|i: int| 0 <= i < p.len() && (#[trigger] p[i]).0 as u32 == k;
            if i < p.len() - 1 {
                assert(init[i] == p[i]);
            }
        }
    }
}

/// Whether every char counts toward the values: a lowercase ASCII letter or an extended one.
pub open spec fn all_counted(l: Seq<char>) -> bool {
    forall|i: int| 0 <= i < l.len() ==> is_counted_char(#[trigger] l[i])
}

/// Whether `c` is a letter of the supported alphabet: an ASCII letter, an extended letter
/// or the capital of one.
pub open spec fn is_known_letter(c: char) -> bool {
    is_ascii_alpha(c) || extended_char_value(c) is Some || extended_capital_lower(c) is Some
}

/// An extended letter is worth between 3 and 144.
proof fn lemma_extended_range(c: char)
    requires
        extended_char_value(c) is Some,
    ensures
        3 <= extended_or_zero(c) <= 144,
{
}

proof fn lemma_array_letter_sum(table: Seq<u64>, l: Seq<char>)
    requires
        table.len() == 26,
        forall|i: int| 0 <= i < 26 ==> 1 <= #[trigger] table[i] <= 1776,
        all_counted(l),
    ensures
        l.len() <= array_sum(table, l) <= 1776 * l.len(),
    decreases l.len(),
{
    if l.len() > 0 {
        let init = l.drop_last();
        assert(all_counted(init)) by {
            assert forall|i: int| 0 <= i < init.len() implies is_counted_char(#[trigger] init[i]) by {
                assert(init[i] == l[i]);
            }
        }
        lemma_array_letter_sum(table, init);
        let c = l.last();
        assert(is_counted_char(l[l.len() - 1]));
        if !is_ascii_lower(c) {
            lemma_extended_range(c);
        }
    }
}

proof fn lemma_table_letter_sum(p: Seq<(char, u64)>, l: Seq<char>)
    requires
        p.len() == 26,
        forall|i: int| 0 <= i < 26 ==> (#[trigger] p[i]).0 as int == 97 + i && 1 <= p[i].1 <= 1776,
        all_counted(l),
    ensures
        l.len() <= table_sum(pairs_map(p), l) <= 1776 * l.len(),
    decreases l.len(),
{
    if l.len() > 0 {
        let init = l.drop_last();
        assert(all_counted(init)) by {
            assert forall|i: int| 0 <= i < init.len() implies is_counted_char(#[trigger] init[i]) by {
                assert(init[i] == l[i]);
            }
        }
        lemma_table_letter_sum(p, init);
        let c = l.last();
        assert(is_counted_char(l[l.len() - 1]));
        if is_ascii_lower(c) {
            let j = (c as int) - 97;
            assert(p[j].0 as u32 == c as u32);
            lemma_pairs_map_values(p, c as u32);
        } else {
            lemma_extended_range(c);
        }
    }
}

/// A non-empty text made only of letters (ASCII letters, extended letters and their
/// capitals) has a positive value under every cipher.
pub proof fn law_letters_are_positive(g: Gematria, s: Seq<char>)
    requires
        g.computed_from(s),
        s.len() > 0,
        s.len() <= 1_000_000_000_000_000,
        forall|i: int| 0 <= i < s.len() ==> is_known_letter(#[trigger] s[i]),
    ensures
        forall|c: Cipher| #[trigger] g.value_of(c) > 0,
{
    assert(is_known_text(s)) by {
        assert forall|i: int| 0 <= i < s.len() implies (#[trigger] known_lower(s[i])) is Some by {
            assert(is_known_letter(s[i]));
        }
    }
    let l = known_lower_seq(s);
    assert(lowercase(s) == l);
    assert(all_counted(l)) by {
        assert forall|i: int| 0 <= i < l.len() implies is_counted_char(#[trigger] l[i]) by {
            assert(is_known_letter(s[i]));
        }
    }
    law_table_formulas();
    law_pair_tables();
    lemma_array_letter_sum(ENGLISH@, l);
    lemma_array_letter_sum(SIMPLE@, l);
    lemma_array_letter_sum(MAJESTIC@, l);
    lemma_array_letter_sum(EIGHTS@, l);
    lemma_table_letter_sum(JEWISH_PAIRS@, l);
    lemma_table_letter_sum(MYSTERY_PAIRS@, l);
    assert forall|c: Cipher| #[trigger] g.value_of(c) > 0 by {
        assert(g.value_of(c) == gematria_value(c, s));
        let x: int = match c {
            Cipher::English => array_sum(ENGLISH@, l),
            Cipher::Jewish => table_sum(pairs_map(JEWISH_PAIRS@), l),
            Cipher::Simple => array_sum(SIMPLE@, l),
            Cipher::Mystery => table_sum(pairs_map(MYSTERY_PAIRS@), l),
            Cipher::Majestic => array_sum(MAJESTIC@, l),
            Cipher::Eights => array_sum(EIGHTS@, l),
        };
        assert(1 <= x <= 1776 * l.len());
        vstd::arithmetic::div_mod::lemma_small_mod(x as nat, two_pow_64() as nat);
        assert(gematria_value(c, s) == wrap64(x));
    }
}

} // verus!

verus! {

proof fn lemma_ascii_lower_facts(s: Seq<char>)
    requires
        vstd::utf8::is_ascii_chars(s),
    ensures
        vstd::utf8::is_ascii_chars(ascii_lower_seq(s)),
        forall|i: int|
            0 <= i < ascii_lower_seq(s).len() ==> !is_ascii_upper(#[trigger] ascii_lower_seq(s)[i]),
        forall|i: int|
            0 <= i < s.len() ==> (is_ascii_alpha(s[i]) <==> is_ascii_lower(
                #[trigger] ascii_lower_seq(s)[i],
            )),
{
    let l = ascii_lower_seq(s);
    assert forall|i: int| 0 <= i < l.len() implies '\0' <= #[trigger] l[i] <= '\u{7f}' by {
        assert('\0' <= s[i] <= '\u{7f}');
    }
}

/// An extended letter is worth at most 144.
proof fn lemma_extended_bound(c: char)
    ensures
        extended_or_zero(c) <= 144,
{
}

/// Every unwrapped sum over a text without ASCII capitals stays below 1776 per char.
proof fn lemma_lower_sum_bounds(l: Seq<char>)
    requires
        forall|i: int| 0 <= i < l.len() ==> !is_ascii_upper(#[trigger] l[i]),
    ensures
        0 <= array_sum(ENGLISH@, l) <= 1776 * l.len(),
        0 <= array_sum(SIMPLE@, l) <= 1776 * l.len(),
        0 <= array_sum(MAJESTIC@, l) <= 1776 * l.len(),
        0 <= array_sum(EIGHTS@, l) <= 1776 * l.len(),
        0 <= table_sum(pairs_map(JEWISH_PAIRS@), l) <= 1776 * l.len(),
        0 <= table_sum(pairs_map(MYSTERY_PAIRS@), l) <= 1776 * l.len(),
    decreases l.len(),
{
    if l.len() > 0 {
        let init = l.drop_last();
        assert forall|i: int| 0 <= i < init.len() implies !is_ascii_upper(#[trigger] init[i]) by {
            assert(init[i] == l[i]);
        }
        lemma_lower_sum_bounds(init);
        let c = l.last();
        assert(l[l.len() - 1] == c);
        lemma_extended_bound(c);
        law_table_formulas();
        law_pair_tables();
        lemma_pairs_map_values(JEWISH_PAIRS@, c as u32);
        lemma_pairs_map_values(MYSTERY_PAIRS@, c as u32);
    }
}

/// Values add up: for texts of ASCII chars, extended letters and their capitals, the value
/// of two texts written together is the sum of their values, under every cipher (while the
/// sums stay far below 2^64).
pub proof fn law_values_add_up(g: Gematria, ga: Gematria, gb: Gematria, a: Seq<char>, b: Seq<char>)
    requires
        g.computed_from(a + b),
        ga.computed_from(a),
        gb.computed_from(b),
        is_known_text(a),
        is_known_text(b),
        a.len() + b.len() <= 1_000_000_000_000_000,
    ensures
        forall|c: Cipher| #[trigger] g.value_of(c) == ga.value_of(c) + gb.value_of(c),
{
    lemma_known_concat(a, b);
    let la = known_lower_seq(a);
    let lb = known_lower_seq(b);
    assert(lowercase(a + b) == la + lb);
    assert(lowercase(a) == la);
    assert(lowercase(b) == lb);
    assert forall|i: int| 0 <= i < la.len() implies !is_ascii_upper(#[trigger] la[i]) by {
        assert(la[i] == lowercase(a)[i]);
    }
    assert forall|i: int| 0 <= i < lb.len() implies !is_ascii_upper(#[trigger] lb[i]) by {
        assert(lb[i] == lowercase(b)[i]);
    }
    lemma_lower_sum_bounds(la);
    lemma_lower_sum_bounds(lb);
    assert forall|c: Cipher| #[trigger] g.value_of(c) == ga.value_of(c) + gb.value_of(c) by {
        lemma_values_append(c, la, lb);
        assert(g.value_of(c) == cipher_value_of(c, la + lb));
        assert(ga.value_of(c) == cipher_value_of(c, la));
        assert(gb.value_of(c) == cipher_value_of(c, lb));
        let (x, y): (int, int) = match c {
            Cipher::English => (array_sum(ENGLISH@, la), array_sum(ENGLISH@, lb)),
            Cipher::Jewish => (
                table_sum(pairs_map(JEWISH_PAIRS@), la),
                table_sum(pairs_map(JEWISH_PAIRS@), lb),
            ),
            Cipher::Simple => (array_sum(SIMPLE@, la), array_sum(SIMPLE@, lb)),
            Cipher::Mystery => (
                table_sum(pairs_map(MYSTERY_PAIRS@), la),
                table_sum(pairs_map(MYSTERY_PAIRS@), lb),
            ),
            Cipher::Majestic => (array_sum(MAJESTIC@, la), array_sum(MAJESTIC@, lb)),
            Cipher::Eights => (array_sum(EIGHTS@, la), array_sum(EIGHTS@, lb)),
        };
        assert(0 <= x <= 1776 * la.len() && 0 <= y <= 1776 * lb.len());
        vstd::arithmetic::div_mod::lemma_small_mod(x as nat, two_pow_64() as nat);
        vstd::arithmetic::div_mod::lemma_small_mod(y as nat, two_pow_64() as nat);
        vstd::arithmetic::div_mod::lemma_small_mod((x + y) as nat, two_pow_64() as nat);
    }
}

/// Order of parts does not matter: two texts of ASCII chars, extended letters and their
/// capitals, written in either order, have the same values under every cipher.
pub proof fn law_order_of_parts(g: Gematria, h: Gematria, a: Seq<char>, b: Seq<char>)
    requires
        g.computed_from(a + b),
        h.computed_from(b + a),
        is_known_text(a),
        is_known_text(b),
    ensures
        forall|c: Cipher| #[trigger] g.value_of(c) == h.value_of(c),
{
    lemma_known_concat(a, b);
    lemma_known_concat(b, a);
    let la = known_lower_seq(a);
    let lb = known_lower_seq(b);
    assert(lowercase(a + b) == la + lb);
    assert(lowercase(b + a) == lb + la);
    assert forall|c: Cipher| #[trigger] g.value_of(c) == h.value_of(c) by {
        lemma_values_append(c, la, lb);
        lemma_values_append(c, lb, la);
        assert(g.value_of(c) == cipher_value_of(c, la + lb));
        assert(h.value_of(c) == cipher_value_of(c, lb + la));
    }
}

proof fn lemma_simple_positive_iff_letter(l: Seq<char>)
    requires
        vstd::utf8::is_ascii_chars(l),
        forall|i: int| 0 <= i < l.len() ==> !is_ascii_upper(#[trigger] l[i]),
    ensures
        array_sum(SIMPLE@, l) > 0 <==> exists|i: int| 0 <= i < l.len() && is_ascii_lower(#[trigger] l[i]),
    decreases l.len(),
{
    if l.len() > 0 {
        let init = l.drop_last();
        assert(vstd::utf8::is_ascii_chars(init)) by {
            assert forall|i: int| 0 <= i < init.len() implies '\0' <= #[trigger] init[i] <= '\u{7f}' by {
                assert(init[i] == l[i]);
            }
        }
        assert forall|i: int| 0 <= i < init.len() implies !is_ascii_upper(#[trigger] init[i]) by {
            assert(init[i] == l[i]);
        }
        lemma_simple_positive_iff_letter(init);
        lemma_array_sum_nonneg(SIMPLE@, init);
        let c = l.last();
        assert(l[l.len() - 1] == c);
        lemma_ascii_not_extended(c);
        law_table_formulas();
        if exists|i: int| 0 <= i < init.len() && is_ascii_lower(#[trigger] init[i]) {
            let i = choose|i: int| 0 <= i < init.len() && is_ascii_lower(#[trigger] init[i]);
            assert(l[i] == init[i]);
        }
        if exists|i: int| 0 <= i < l.len() && is_ascii_lower(#[trigger] l[i]) {
            let i = choose|i: int| 0 <= i < l.len() && is_ascii_lower(#[trigger] l[i]);
            if i < init.len() {
                assert(init[i] == l[i]);
            }
        }
    }
}

/// For ASCII text the English value is positive exactly when the text holds a letter.
pub proof fn law_english_positive_iff_letter(g: Gematria, s: Seq<char>)
    requires
        g.computed_from(s),
        vstd::utf8::is_ascii_chars(s),
        s.len() <= 100_000_000_000_000_000,
    ensures
        g.english > 0 <==> exists|i: int| 0 <= i < s.len() && is_ascii_alpha(#[trigger] s[i]),
{
    law_english_is_six_times_simple(g, s);
    let l = ascii_lower_seq(s);
    lemma_ascii_lower_facts(s);
    lemma_simple_positive_iff_letter(l);
    lemma_english_simple_sums(l);
    assert(lowercase(s) == l);
    assert(g.value_of(Cipher::Simple) == gematria_value(Cipher::Simple, s));
    let x = array_sum(SIMPLE@, l);
    vstd::arithmetic::div_mod::lemma_small_mod(x as nat, two_pow_64() as nat);
    if exists|i: int| 0 <= i < s.len() && is_ascii_alpha(#[trigger] s[i]) {
        let i = choose|i: int| 0 <= i < s.len() && is_ascii_alpha(#[trigger] s[i]);
        assert(is_ascii_lower(l[i]));
    }
    if exists|i: int| 0 <= i < l.len() && is_ascii_lower(#[trigger] l[i]) {
        let i = choose|i: int| 0 <= i < l.len() && is_ascii_lower(#[trigger] l[i]);
        assert(is_ascii_alpha(s[i]));
    }
}

} // verus!

verus! {

/// Whether a char of a lowercased text counts toward its values: a lowercase ASCII letter
/// or a letter of the extended table.
pub open spec fn is_counted_char(c: char) -> bool {
    is_ascii_lower(c) || extended_char_value(c) is Some
}

/// The chars of a lowercased text that count toward its values, each as often as it occurs.
pub open spec fn counted_letters(lower: Seq<char>) -> Multiset<char> {
    lower.filter(|c: char| is_counted_char(c)).to_multiset()
}

/// Sum of `f` over the chars of `s`.
spec fn char_sum(f: spec_fn(char) -> int, s: Seq<char>) -> int
    decreases s.len(),
{
    if s.len() == 0 {
        0
    } else {
        char_sum(f, s.drop_last()) + f(s.last())
    }
}

spec fn array_value_fn(table: Seq<u64>) -> spec_fn(char) -> int {
    |c: char| array_char_value(table, c) as int
}

spec fn table_value_fn(table: Map<u32, u64>) -> spec_fn(char) -> int {
    |c: char| table_char_value(table, c) as int
}

proof fn lemma_array_char_sum(table: Seq<u64>, s: Seq<char>)
    ensures
        array_sum(table, s) == char_sum(array_value_fn(table), s),
    decreases s.len(),
{
    if s.len() > 0 {
        lemma_array_char_sum(table, s.drop_last());
    }
}

proof fn lemma_table_char_sum(table: Map<u32, u64>, s: Seq<char>)
    ensures
        table_sum(table, s) == char_sum(table_value_fn(table), s),
    decreases s.len(),
{
    if s.len() > 0 {
        lemma_table_char_sum(table, s.drop_last());
    }
}

proof fn lemma_char_sum_append(f: spec_fn(char) -> int, a: Seq<char>, b: Seq<char>)
    ensures
        char_sum(f, a + b) == char_sum(f, a) + char_sum(f, b),
    decreases b.len(),
{
    if b.len() == 0 {
        assert(a + b == a);
    } else {
        lemma_char_sum_append(f, a, b.drop_last());
        assert((a + b).drop_last() == a + b.drop_last());
    }
}

/// Taking one char out of a text takes its value out of the sum.
proof fn lemma_char_sum_remove(f: spec_fn(char) -> int, s: Seq<char>, j: int)
    requires
        0 <= j < s.len(),
    ensures
        char_sum(f, s) == char_sum(f, s.remove(j)) + f(s[j]),
{
    let front = s.subrange(0, j);
    let one = seq![s[j]];
    let back = s.subrange(j + 1, s.len() as int);
    assert(s == front + one + back);
    assert(s.remove(j) == front + back);
    lemma_char_sum_append(f, front + one, back);
    lemma_char_sum_append(f, front, one);
    lemma_char_sum_append(f, front, back);
    assert(one.drop_last() =~= Seq::<char>::empty());
    assert(one.last() == s[j]);
    assert(char_sum(f, one) == char_sum(f, one.drop_last()) + f(one.last()));
}

/// The sum does not depend on the order of the chars.
proof fn lemma_char_sum_permutation(f: spec_fn(char) -> int, a: Seq<char>, b: Seq<char>)
    requires
        a.to_multiset() == b.to_multiset(),
    ensures
        char_sum(f, a) == char_sum(f, b),
    decreases a.len(),
{
    broadcast use vstd::seq_lib::group_to_multiset_ensures;
    broadcast use vstd::multiset::group_multiset_axioms;

    if a.len() == 0 {
        assert(b.len() == b.to_multiset().len());
        assert(a.len() == a.to_multiset().len());
    } else {
        let x = a.last();
        let init = a.drop_last();
        assert(a == init.push(x));
        assert(a.to_multiset() == init.to_multiset().insert(x));
        assert(b.to_multiset().count(x) > 0);
        assert(b.contains(x));
        let j = choose|j: int| 0 <= j < b.len() && b[j] == x;
        assert(b.remove(j).to_multiset() == b.to_multiset().remove(x));
        assert(b.remove(j).to_multiset() =~= init.to_multiset());
        lemma_char_sum_permutation(f, init, b.remove(j));
        lemma_char_sum_remove(f, b, j);
    }
}

/// Leaving out chars that are worth nothing leaves the sum as it is.
proof fn lemma_char_sum_filter(f: spec_fn(char) -> int, p: spec_fn(char) -> bool, s: Seq<char>)
    requires
        forall|i: int| 0 <= i < s.len() && !p(s[i]) ==> f(s[i]) == 0,
    ensures
        char_sum(f, s) == char_sum(f, s.filter(p)),
    decreases s.len(),
{
    reveal(Seq::filter);
    if s.len() > 0 {
        let init = s.drop_last();
        assert forall|i: int| 0 <= i < init.len() && !p(init[i]) implies f(init[i]) == 0 by {
            assert(init[i] == s[i]);
        }
        lemma_char_sum_filter(f, p, init);
        assert(s[s.len() - 1] == s.last());
        if p(s.last()) {
            assert(s.filter(p) == init.filter(p).push(s.last()));
            assert(s.filter(p).drop_last() == init.filter(p));
        }
    }
}

/// Two lowercased texts with the same counted letters have the same sum under any char
/// value that is zero on every other char that is not an ASCII capital.
proof fn lemma_sum_follows_letters(f: spec_fn(char) -> int, ls: Seq<char>, lt: Seq<char>)
    requires
        forall|c: char| !is_counted_char(c) && !is_ascii_upper(c) ==> #[trigger] f(c) == 0,
        forall|i: int| 0 <= i < ls.len() ==> !is_ascii_upper(#[trigger] ls[i]),
        forall|i: int| 0 <= i < lt.len() ==> !is_ascii_upper(#[trigger] lt[i]),
        counted_letters(ls) == counted_letters(lt),
    ensures
        char_sum(f, ls) == char_sum(f, lt),
{
    let p = |c: char| is_counted_char(c);
    assert forall|i: int| 0 <= i < ls.len() && !p(ls[i]) implies f(ls[i]) == 0 by {
        assert(!is_ascii_upper(ls[i]));
    }
    assert forall|i: int| 0 <= i < lt.len() && !p(lt[i]) implies f(lt[i]) == 0 by {
        assert(!is_ascii_upper(lt[i]));
    }
    lemma_char_sum_filter(f, p, ls);
    lemma_char_sum_filter(f, p, lt);
    lemma_char_sum_permutation(f, ls.filter(p), lt.filter(p));
}

/// Only letters count, each as often as it occurs, in any order: two texts whose lowercased
/// forms hold the same letters (lowercase ASCII letters and letters of the extended table,
/// each the same number of times) get the same value under every cipher, whatever spaces,
/// digits, punctuation, letter case or order of letters they have.
pub proof fn law_same_letters_same_values(g: Gematria, h: Gematria, s: Seq<char>, t: Seq<char>)
    requires
        g.computed_from(s),
        h.computed_from(t),
        counted_letters(lowercase(s)) == counted_letters(lowercase(t)),
    ensures
        forall|c: Cipher| #[trigger] g.value_of(c) == h.value_of(c),
{
    let ls = lowercase(s);
    let lt = lowercase(t);
    assert forall|c: Cipher| #[trigger] g.value_of(c) == h.value_of(c) by {
        assert(g.value_of(c) == gematria_value(c, s));
        assert(h.value_of(c) == gematria_value(c, t));
        match c {
            Cipher::English => lemma_array_follows_letters(ENGLISH@, ls, lt),
            Cipher::Simple => lemma_array_follows_letters(SIMPLE@, ls, lt),
            Cipher::Majestic => lemma_array_follows_letters(MAJESTIC@, ls, lt),
            Cipher::Eights => lemma_array_follows_letters(EIGHTS@, ls, lt),
            Cipher::Jewish => lemma_table_follows_letters(pairs_map(JEWISH_PAIRS@), ls, lt),
            Cipher::Mystery => lemma_table_follows_letters(pairs_map(MYSTERY_PAIRS@), ls, lt),
        }
    }
}

proof fn lemma_array_follows_letters(table: Seq<u64>, ls: Seq<char>, lt: Seq<char>)
    requires
        forall|i: int| 0 <= i < ls.len() ==> !is_ascii_upper(#[trigger] ls[i]),
        forall|i: int| 0 <= i < lt.len() ==> !is_ascii_upper(#[trigger] lt[i]),
        counted_letters(ls) == counted_letters(lt),
    ensures
        array_sum(table, ls) == array_sum(table, lt),
{
    let f = array_value_fn(table);
    assert forall|c: char| !is_counted_char(c) && !is_ascii_upper(c) implies #[trigger] f(c) == 0 by {
        assert(!is_ascii_alpha(c));
    }
    lemma_sum_follows_letters(f, ls, lt);
    lemma_array_char_sum(table, ls);
    lemma_array_char_sum(table, lt);
}

proof fn lemma_table_follows_letters(table: Map<u32, u64>, ls: Seq<char>, lt: Seq<char>)
    requires
        forall|i: int| 0 <= i < ls.len() ==> !is_ascii_upper(#[trigger] ls[i]),
        forall|i: int| 0 <= i < lt.len() ==> !is_ascii_upper(#[trigger] lt[i]),
        counted_letters(ls) == counted_letters(lt),
    ensures
        table_sum(table, ls) == table_sum(table, lt),
{
    let f = table_value_fn(table);
    assert forall|c: char| !is_counted_char(c) && !is_ascii_upper(c) implies #[trigger] f(c) == 0 by {
        assert(!is_ascii_alpha(c));
    }
    lemma_sum_follows_letters(f, ls, lt);
    lemma_table_char_sum(table, ls);
    lemma_table_char_sum(table, lt);
}

proof fn lemma_english_positive_iff_counted(l: Seq<char>)
    requires
        forall|i: int| 0 <= i < l.len() ==> !is_ascii_upper(#[trigger] l[i]),
    ensures
        array_sum(ENGLISH@, l) > 0 <==> exists|i: int| 0 <= i < l.len() && is_counted_char(#[trigger] l[i]),
    decreases l.len(),
{
    if l.len() > 0 {
        let init = l.drop_last();
        assert forall|i: int| 0 <= i < init.len() implies !is_ascii_upper(#[trigger] init[i]) by {
            assert(init[i] == l[i]);
        }
        lemma_english_positive_iff_counted(init);
        lemma_array_sum_nonneg(ENGLISH@, init);
        let c = l.last();
        assert(l[l.len() - 1] == c);
        assert(!is_ascii_upper(c));
        law_table_formulas();
        if extended_char_value(c) is Some {
            lemma_extended_range(c);
        }
        if exists|i: int| 0 <= i < init.len() && is_counted_char(#[trigger] init[i]) {
            let i = choose|i: int| 0 <= i < init.len() && is_counted_char(#[trigger] init[i]);
            assert(l[i] == init[i]);
        }
        if exists|i: int| 0 <= i < l.len() && is_counted_char(#[trigger] l[i]) {
            let i = choose|i: int| 0 <= i < l.len() && is_counted_char(#[trigger] l[i]);
            if i < init.len() {
                assert(init[i] == l[i]);
            }
        }
    }
}

/// For text of ASCII chars, extended letters and their capitals, the English value is
/// positive exactly when the text holds a letter (while the sum stays far below 2^64).
pub proof fn law_english_positive_iff_known_letter(g: Gematria, s: Seq<char>)
    requires
        g.computed_from(s),
        is_known_text(s),
        s.len() <= 1_000_000_000_000_000,
    ensures
        g.english > 0 <==> exists|i: int| 0 <= i < s.len() && is_known_letter(#[trigger] s[i]),
{
    let l = known_lower_seq(s);
    assert(lowercase(s) == l);
    assert forall|i: int| 0 <= i < l.len() implies !is_ascii_upper(#[trigger] l[i]) by {
        assert(l[i] == lowercase(s)[i]);
    }
    assert forall|i: int| 0 <= i < s.len() implies (is_known_letter(s[i]) <==> is_counted_char(
        #[trigger] l[i],
    )) by {
        assert(known_lower(s[i]) is Some);
    }
    lemma_english_positive_iff_counted(l);
    lemma_lower_sum_bounds(l);
    assert(g.value_of(Cipher::English) == gematria_value(Cipher::English, s));
    let x = array_sum(ENGLISH@, l);
    vstd::arithmetic::div_mod::lemma_small_mod(x as nat, two_pow_64() as nat);
    if exists|i: int| 0 <= i < s.len() && is_known_letter(#[trigger] s[i]) {
        let i = choose|i: int| 0 <= i < s.len() && is_known_letter(#[trigger] s[i]);
        assert(is_counted_char(l[i]));
    }
    if exists|i: int| 0 <= i < l.len() && is_counted_char(#[trigger] l[i]) {
        let i = choose|i: int| 0 <= i < l.len() && is_counted_char(#[trigger] l[i]);
        assert(is_known_letter(s[i]));
    }
}

} // verus!
