# rusty_gematria

Gematria calculator and explorer: six cipher systems (English, Jewish, Simple, Mystery,
Majestic, Eights) computed over words and phrases in English, Spanish, Romanian and
French, with an index of dictionary words by cipher value and a generator of phrases
that match a target value.

The library under `src/` is verified with Verus:

- `cipher.rs` — the six ciphers, the extended table of non-ASCII letters, `calculate`,
  and laws: only the letters of the lowercased text count, each as often as it occurs
  and in any order; each extended letter and its capital is worth its own value; for
  text of ASCII and extended letters, case, order of parts and non-letters do not matter
  and values add up; for ASCII text, English is six times Simple and positive exactly
  when a letter occurs.
- `dictionary.rs` — the embedded word lists (a small list per language, one word per
  line) and language flags.
- `matrix.rs` — the index of every dictionary word by cipher value: lookups give exactly
  the words of the value, in order; `word_count` counts the indexed words; under every
  cipher the buckets together hold each indexed word once.
- `textee.rs` — sliding-window phrase extraction over whitespace-separated words.
- `phrase.rs` — part-of-speech guessing, sentence templates and the phrase generator,
  which samples candidates per template (in parallel, with rayon) from a seed.
- `session.rs` — the state of the interactive explorer: input versions, the typing
  pause, which computed results apply, and the background computation itself.

`app/` holds the program: `rusty-gematria [-f FILE] [-l en|es|ro|fr] [-L LIMIT] [-d MS]
[--gui] [TEXT...]` (`-d` is accepted and not used: the typing pause is 369 ms). It analyses a file, a dictionary corpus or the given text, reads lines
from the terminal when given none, and opens a native window (eframe) with `--gui`.
