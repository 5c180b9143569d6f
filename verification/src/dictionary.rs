use crate::textee::is_white_space;
use vstd::prelude::*;

verus! {

/// Embedded English word list, one word per line.
pub const ENGLISH_WORDS: &'static str = "\
the\n\
a\n\
an\n\
and\n\
but\n\
or\n\
so\n\
yet\n\
for\n\
in\n\
on\n\
at\n\
by\n\
with\n\
about\n\
from\n\
to\n\
of\n\
into\n\
over\n\
under\n\
i\n\
you\n\
he\n\
she\n\
it\n\
we\n\
they\n\
me\n\
him\n\
her\n\
us\n\
them\n\
michael\n\
andrei\n\
david\n\
maria\n\
john\n\
peter\n\
light\n\
truth\n\
word\n\
love\n\
life\n\
peace\n\
house\n\
water\n\
fire\n\
earth\n\
stone\n\
river\n\
mountain\n\
heart\n\
mind\n\
spirit\n\
king\n\
queen\n\
child\n\
friend\n\
world\n\
number\n\
letter\n\
name\n\
book\n\
song\n\
star\n\
sun\n\
moon\n\
tree\n\
bird\n\
walk\n\
speak\n\
know\n\
hold\n\
give\n\
find\n\
keep\n\
turn\n\
call\n\
open\n\
build\n\
write\n\
read\n\
sing\n\
walking\n\
speaking\n\
singing\n\
reading\n\
writing\n\
building\n\
turning\n\
walked\n\
spoke\n\
opened\n\
called\n\
turned\n\
listened\n\
believed\n\
quickly\n\
slowly\n\
softly\n\
gently\n\
brightly\n\
quietly\n\
truly\n\
beautiful\n\
careful\n\
hopeful\n\
fearless\n\
endless\n\
joyous\n\
famous\n\
creative\n\
active\n\
natural\n\
eternal\n\
golden\n\
ancient\n\
silent\n\
sacred\n\
hidden\n\
gematria\n\
cipher\n\
rust\n";

/// Embedded Spanish word list, one word per line; blank lines and the spaces around a
/// word do not count.
pub const SPANISH_WORDS: &'static str = "\
el\n\
la\n\
los\n\
las\n\
un\n\
una\n\
y\n\
pero\n\
o\n\
en\n\
con\n\
de\n\
por\n\
para\n\
casa\n\
agua\n\
fuego\n\
tierra\n\
piedra\n\
luz\n\
amor\n\
vida\n\
paz\n\
corazón\n\
hablar\n\
saber\n\
tener\n\
vivir\n\
cantar\n\
escribir\n\
leer\n\
rápido\n\
lento\n\
bueno\n\
grande\n\
pequeño\n\
niño\n\
amigo\n\
mundo\n\
número\n\
nombre\n\
libro\n\
canción\n\
estrella\n\
sol\n\
luna\n\
árbol\n\
más\n\
así\n\
también\n\
camión\n\
jardín\n\
\n\
\x20\x20cielo\x20\n\
\t\n\
mar\r\n";

/// Embedded Romanian word list, one word per line.
pub const ROMANIAN_WORDS: &'static str = "\
și\n\
dar\n\
sau\n\
în\n\
pe\n\
la\n\
cu\n\
de\n\
din\n\
pentru\n\
casă\n\
apă\n\
foc\n\
pământ\n\
piatră\n\
lumină\n\
iubire\n\
viață\n\
pace\n\
inimă\n\
vorbi\n\
ști\n\
ține\n\
trăi\n\
cânta\n\
scrie\n\
citi\n\
repede\n\
încet\n\
bun\n\
mare\n\
mic\n\
copil\n\
prieten\n\
lume\n\
număr\n\
nume\n\
carte\n\
cântec\n\
stea\n\
soare\n\
lună\n\
copac\n\
țară\n\
școală\n\
frumos\n\
adevăr\n\
cuvânt\n";

/// Embedded French word list, one word per line.
pub const FRENCH_WORDS: &'static str = "\
le\n\
la\n\
les\n\
un\n\
une\n\
et\n\
mais\n\
ou\n\
dans\n\
sur\n\
avec\n\
de\n\
pour\n\
maison\n\
eau\n\
feu\n\
terre\n\
pierre\n\
lumière\n\
amour\n\
vie\n\
paix\n\
cœur\n\
parler\n\
savoir\n\
tenir\n\
vivre\n\
chanter\n\
écrire\n\
lire\n\
rapide\n\
lent\n\
bon\n\
grand\n\
petit\n\
enfant\n\
ami\n\
monde\n\
nombre\n\
nom\n\
livre\n\
chanson\n\
étoile\n\
soleil\n\
lune\n\
arbre\n\
être\n\
très\n\
fenêtre\n\
garçon\n\
français\n\
noël\n\
sœur\n";

/// The four languages whose word lists are embedded.
#[derive(Debug, Clone, Copy, PartialEq, Eq, Structural)]
pub enum Language {
    English,
    Spanish,
    Romanian,
    French,
}

/// Language that a command-line flag names, if any.
pub open spec fn flag_language(flag: Seq<char>) -> Option<Language> {
    if flag == "en"@ || flag == "english"@ {
        Some(Language::English)
    } else if flag == "es"@ || flag == "spanish"@ {
        Some(Language::Spanish)
    } else if flag == "ro"@ || flag == "romanian"@ {
        Some(Language::Romanian)
    } else if flag == "fr"@ || flag == "french"@ {
        Some(Language::French)
    } else {
        None
    }
}

/// Whether two strings hold the same chars.
pub fn str_equal(a: &str, b: &str) -> (r: bool)
    ensures
        r == (a@ == b@),
{
    let n = a.unicode_len();
    if n != b.unicode_len() {
        return false;
    }
    let mut i: usize = 0;
    while i < n
        invariant
            n == a@.len(),
            n == b@.len(),
            i <= n,
            forall|j: int| 0 <= j < i ==> a@[j] == b@[j],
        decreases n - i,
    {
        if a.get_char(i) != b.get_char(i) {
            return false;
        }
        i += 1;
    }
    assert(a@ =~= b@);
    true
}

impl Language {
    /// Parses a language flag: `en`, `es`, `ro`, `fr` or the language's English name.
    pub fn from_flag(flag: &str) -> (r: Option<Language>)
        ensures
            r == flag_language(flag@),
    {
        if str_equal(flag, "en") || str_equal(flag, "english") {
            Some(Language::English)
        } else if str_equal(flag, "es") || str_equal(flag, "spanish") {
            Some(Language::Spanish)
        } else if str_equal(flag, "ro") || str_equal(flag, "romanian") {
            Some(Language::Romanian)
        } else if str_equal(flag, "fr") || str_equal(flag, "french") {
            Some(Language::French)
        } else {
            None
        }
    }
}

/// Embedded word list text of a language.
pub open spec fn raw_text(language: Language) -> Seq<char> {
    match language {
        Language::English => ENGLISH_WORDS@,
        Language::Spanish => SPANISH_WORDS@,
        Language::Romanian => ROMANIAN_WORDS@,
        Language::French => FRENCH_WORDS@,
    }
}

/// The pieces of `s` between line feeds; there is always at least one.
pub open spec fn newline_pieces(s: Seq<char>) -> Seq<Seq<char>>
    decreases s.len(),
{
    if s.len() == 0 {
        seq![Seq::empty()]
    } else {
        let p = newline_pieces(s.drop_last());
        if s.last() == '\n' {
            p.push(Seq::empty())
        } else {
            p.update(p.len() - 1, p.last().push(s.last()))
        }
    }
}

/// A line without the carriage return that ended it, if any.
pub open spec fn without_cr(l: Seq<char>) -> Seq<char> {
    if l.len() > 0 && l.last() == '\r' {
        l.drop_last()
    } else {
        l
    }
}

/// The lines that `str::lines` yields: the text is split at each `\n`; a line ended by
/// `\r\n` loses the `\r`; a final line ending is optional, so an empty piece after the
/// last `\n` (or an empty text) gives no line.
pub open spec fn text_lines(s: Seq<char>) -> Seq<Seq<char>> {
    let p = newline_pieces(s);
    let ended = Seq::new((p.len() - 1) as nat, |i: int| without_cr(p[i]));
    if p.last().len() == 0 {
        ended
    } else {
        ended.push(p.last())
    }
}

/// Calls `str::lines` and collects the lines, which std documents as `text_lines` states.
#[verifier::external_body]
fn split_lines<'a>(s: &'a str) -> (r: Vec<&'a str>)
    ensures
        r.deep_view() == text_lines(s@),
{
    s.lines().collect()
}

pub open spec fn trim_start_seq(s: Seq<char>) -> Seq<char>
    decreases s.len(),
{
    if s.len() > 0 && is_white_space(s[0]) {
        trim_start_seq(s.drop_first())
    } else {
        s
    }
}

pub open spec fn trim_end_seq(s: Seq<char>) -> Seq<char>
    decreases s.len(),
{
    if s.len() > 0 && is_white_space(s.last()) {
        trim_end_seq(s.drop_last())
    } else {
        s
    }
}

/// `s` without its leading and trailing White_Space chars.
pub open spec fn trimmed(s: Seq<char>) -> Seq<char> {
    trim_end_seq(trim_start_seq(s))
}

/// Calls `str::trim`, which removes leading and trailing White_Space chars, as std documents.
#[verifier::external_body]
fn trim<'a>(s: &'a str) -> (r: &'a str)
    ensures
        r@ == trimmed(s@),
{
    s.trim()
}

/// The trimmed lines that are not empty, in order.
pub open spec fn word_lines(lines: Seq<Seq<char>>) -> Seq<Seq<char>>
    decreases lines.len(),
{
    if lines.len() == 0 {
        Seq::empty()
    } else {
        let rest = word_lines(lines.drop_last());
        let t = trimmed(lines.last());
        if t.len() > 0 {
            rest.push(t)
        } else {
            rest
        }
    }
}

/// The words of one language's list.
pub open spec fn language_words(language: Language) -> Seq<Seq<char>> {
    word_lines(text_lines(raw_text(language)))
}

/// Each language's words are the trimmed, non-empty lines of its own embedded list: English
/// of `ENGLISH_WORDS`, Spanish of `SPANISH_WORDS`, Romanian of `ROMANIAN_WORDS`, French of
/// `FRENCH_WORDS`.
pub proof fn law_each_language_reads_its_own_list()
    ensures
        language_words(Language::English) == word_lines(text_lines(ENGLISH_WORDS@)),
        language_words(Language::Spanish) == word_lines(text_lines(SPANISH_WORDS@)),
        language_words(Language::Romanian) == word_lines(text_lines(ROMANIAN_WORDS@)),
        language_words(Language::French) == word_lines(text_lines(FRENCH_WORDS@)),
{
}

/// The languages in the order their lists are combined.
pub open spec fn all_languages() -> Seq<Language> {
    seq![Language::English, Language::Spanish, Language::Romanian, Language::French]
}

/// The words of the four lists, one list after another.
pub open spec fn combined_words() -> Seq<Seq<char>> {
    language_words(Language::English) + language_words(Language::Spanish)
        + language_words(Language::Romanian) + language_words(Language::French)
}

fn raw(language: &Language) -> (r: &'static str)
    ensures
        r@ == raw_text(*language),
{
    match language {
        Language::English => ENGLISH_WORDS,
        Language::Spanish => SPANISH_WORDS,
        Language::Romanian => ROMANIAN_WORDS,
        Language::French => FRENCH_WORDS,
    }
}

/// The words of one language: its lines, trimmed, without the empty ones.
pub fn words(language: &Language) -> (r: Vec<&'static str>)
    ensures
        r.deep_view() == language_words(*language),
        *language == Language::English ==> r.deep_view() == word_lines(text_lines(ENGLISH_WORDS@)),
        *language == Language::Spanish ==> r.deep_view() == word_lines(text_lines(SPANISH_WORDS@)),
        *language == Language::Romanian ==> r.deep_view() == word_lines(
            text_lines(ROMANIAN_WORDS@),
        ),
        *language == Language::French ==> r.deep_view() == word_lines(text_lines(FRENCH_WORDS@)),
{
    proof {
        law_each_language_reads_its_own_list();
    }
    let lines = split_lines(raw(language));
    let mut out: Vec<&'static str> = Vec::new();
    let ghost all = lines.deep_view();
    for i in 0..lines.len()
        invariant
            all == lines.deep_view(),
            all == text_lines(raw_text(*language)),
            out.deep_view() == word_lines(all.take(i as int)),
    {
        let t = trim(lines[i]);
        assert(all.take(i + 1).drop_last() == all.take(i as int));
        if !t.is_empty() {
            out.push(t);
        }
        assert(out.deep_view() =~= word_lines(all.take(i + 1)));
    }
    assert(all.take(all.len() as int) == all);
    out
}

/// The words of all four languages combined, English first, then Spanish, Romanian, French.
pub fn all_words() -> (r: Vec<&'static str>)
    ensures
        r.deep_view() == combined_words(),
{
    let mut combined: Vec<&'static str> = Vec::new();
    let mut en = words(&Language::English);
    let mut es = words(&Language::Spanish);
    let mut ro = words(&Language::Romanian);
    let mut fr = words(&Language::French);
    combined.append(&mut en);
    combined.append(&mut es);
    combined.append(&mut ro);
    combined.append(&mut fr);
    assert(combined.deep_view() =~= combined_words());
    combined
}

} // verus!
