use crate::cipher::{calculate, Gematria};
use crate::matrix::{bucket_of, Cipher, Matrix};
use crate::phrase::{generate, generated, TaggedWord};
use crate::textee::{extract, phrase_texts};
use vstd::prelude::*;

verus! {

/// Milliseconds without typing after which the input is sent for computation.
pub const DEBOUNCE_MS: u64 = 369;

/// What the background computation hands back for one version of the input.
pub struct ComputeResult {
    pub version: u64,
    pub results: Vec<Gematria>,
    pub matches: Vec<String>,
}

/// `text` between square brackets, the way generated phrases are shown among the matches.
pub open spec fn bracketed(text: Seq<char>) -> Seq<char> {
    seq!['['] + text + seq![']']
}

/// Whether `results` holds the cipher values of each text, in order.
pub open spec fn results_for(results: Seq<Gematria>, texts: Seq<Seq<char>>) -> bool {
    &&& results.len() == texts.len()
    &&& forall|i: int| 0 <= i < results.len() ==> (#[trigger] results[i]).computed_from(texts[i])
}

/// The matches shown for an English value: the dictionary words of that value, then the
/// texts of the given generated phrases in brackets.
pub open spec fn match_list(
    words: Seq<Seq<char>>,
    generated_texts: Seq<Seq<char>>,
) -> Seq<Seq<char>> {
    words + Seq::new(generated_texts.len(), |i: int| bracketed(generated_texts[i]))
}

/// Texts of a list of generated phrases.
pub open spec fn texts_of(g: Seq<(Seq<Seq<char>>, Seq<char>, u64)>) -> Seq<Seq<char>> {
    Seq::new(g.len(), |i: int| g[i].1)
}

fn bracket(text: &String) -> (r: String)
    ensures
        r@ == bracketed(text@),
{
    let mut r = String::from_str("[");
    r.append(text.as_str());
    r.append("]");
    proof {
        reveal_strlit("[");
        reveal_strlit("]");
        assert(r@ =~= bracketed(text@));
    }
    r
}

/// The matches for an English value: the dictionary words of that value from the matrix,
/// then freshly generated phrases of that value, each in brackets.
pub fn matches_for(matrix: &Matrix, tagged_words: &[TaggedWord], english: u64, limit: usize) -> (r:
    Vec<String>)
    ensures
        exists|seed: usize|
            seed < 1_000_000_000 && r.deep_view() == #[trigger] match_list(
                bucket_of(matrix.indexed(), Cipher::English, english),
                texts_of(generated(tagged_words@, english, limit as int, seed)),
            ),
{
    let words = matrix.lookup(&Cipher::English, english);
    let mut m: Vec<String> = Vec::new();
    for i in 0..words.len()
        invariant
            m.deep_view() == words.deep_view().take(i as int),
    {
        let w = words[i].clone();
        let ghost before = m.deep_view();
        m.push(w);
        assert(m.deep_view() =~= before.push(words@[i as int]@));
        assert(words.deep_view().take(i + 1) =~= words.deep_view().take(i as int).push(
            words@[i as int]@,
        ));
    }
    assert(words.deep_view().take(words@.len() as int) == words.deep_view());
    let gen = generate(tagged_words, english, &Cipher::English, limit);
    let ghost seed = choose|seed: usize|
        seed < 1_000_000_000 && crate::phrase::phrases_view(gen@) == #[trigger] generated(
            tagged_words@,
            english,
            limit as int,
            seed,
        );
    let ghost base = m.deep_view();
    let ghost texts = texts_of(crate::phrase::phrases_view(gen@));
    for j in 0..gen.len()
        invariant
            base.len() + j == m@.len(),
            texts.len() == gen@.len(),
            texts == texts_of(crate::phrase::phrases_view(gen@)),
            m.deep_view() == match_list(base, texts.take(j as int)),
    {
        let b = bracket(&gen[j].text);
        let ghost before = m.deep_view();
        m.push(b);
        assert(m.deep_view() =~= before.push(bracketed(texts[j as int])));
        assert(match_list(base, texts.take(j + 1)) =~= match_list(base, texts.take(j as int)).push(
            bracketed(texts[j as int]),
        ));
    }
    assert(texts.take(gen@.len() as int) == texts);
    m
}

/// The background job for one version of the input: the cipher values of every phrase of
/// up to `limit` words, and the matches of the first phrase's English value.
pub fn compute(
    matrix: &Matrix,
    tagged_words: &[TaggedWord],
    limit: usize,
    version: u64,
    input: &str,
) -> (r: ComputeResult)
    ensures
        r.version == version,
        results_for(r.results@, phrase_texts(input@, limit as int)),
        r.results@.len() == 0 ==> r.matches@.len() == 0,
        r.results@.len() > 0 ==> exists|seed: usize|
            seed < 1_000_000_000 && r.matches.deep_view() == #[trigger] match_list(
                bucket_of(matrix.indexed(), Cipher::English, r.results@[0].english),
                texts_of(generated(tagged_words@, r.results@[0].english, limit as int, seed)),
            ),
{
    let phrases = extract(input, limit);
    let mut results: Vec<Gematria> = Vec::new();
    for i in 0..phrases.len()
        invariant
            results@.len() == i,
            forall|j: int| 0 <= j < i ==> (#[trigger] results@[j]).computed_from(phrases@[j].text@),
    {
        results.push(calculate(phrases[i].text.as_str()));
    }
    assert(results_for(results@, phrase_texts(input@, limit as int)));
    let matches = if results.len() > 0 {
        matches_for(matrix, tagged_words, results[0].english, limit)
    } else {
        Vec::new()
    };
    ComputeResult { version, results, matches }
}

/// An edit always gives the input a new version, so any result computed for the version
/// before the edit is stale: `apply` drops it.
pub proof fn law_edit_makes_older_results_stale(version: u64)
    ensures
        vstd::wrapping::u64_specs::wrapping_add(version, 1) != version,
{
}

/// Position of the last result for version `v`, or -1 when there is none.
pub open spec fn last_current(rs: Seq<ComputeResult>, v: u64) -> int
    decreases rs.len(),
{
    if rs.len() == 0 {
        -1
    } else if rs.last().version == v {
        rs.len() - 1
    } else {
        last_current(rs.drop_last(), v)
    }
}

/// Whether some result for version `v` holds at least one row.
pub open spec fn some_current_rows(rs: Seq<ComputeResult>, v: u64) -> bool {
    exists|j: int| 0 <= j < rs.len() && (#[trigger] rs[j]).version == v && rs[j].results@.len() > 0
}

proof fn lemma_last_current_bounds(rs: Seq<ComputeResult>, v: u64)
    ensures
        -1 <= last_current(rs, v) < rs.len(),
        last_current(rs, v) >= 0 ==> rs[last_current(rs, v)].version == v,
    decreases rs.len(),
{
    if rs.len() > 0 {
        lemma_last_current_bounds(rs.drop_last(), v);
    }
}

/// Whether result `i` carries version `v` and no later result does.
pub open spec fn is_last_of_version(rs: Seq<ComputeResult>, v: u64, i: int) -> bool {
    &&& 0 <= i < rs.len()
    &&& rs[i].version == v
    &&& forall|k: int| i < k < rs.len() ==> (#[trigger] rs[k]).version != v
}

/// Whether no result carries version `v`.
pub open spec fn has_no_version(rs: Seq<ComputeResult>, v: u64) -> bool {
    forall|k: int| 0 <= k < rs.len() ==> (#[trigger] rs[k]).version != v
}

/// The last result for a version is found whatever it holds: when result `i` carries `v`
/// and no later one does, it is the last current one, even when it has no rows.
pub proof fn law_last_current_is_the_last_of_its_version(rs: Seq<ComputeResult>, v: u64, i: int)
    requires
        is_last_of_version(rs, v, i),
    ensures
        last_current(rs, v) == i,
    decreases rs.len(),
{
    if i < rs.len() - 1 {
        let init = rs.drop_last();
        assert(rs[rs.len() - 1].version != v);
        assert(init[i] == rs[i]);
        assert forall|k: int| i < k < init.len() implies (#[trigger] init[k]).version != v by {
            assert(init[k] == rs[k]);
            assert(rs[k].version != v);
        }
        law_last_current_is_the_last_of_its_version(init, v, i);
    }
}

/// When no result carries version `v`, there is no current result.
pub proof fn law_no_current_without_the_version(rs: Seq<ComputeResult>, v: u64)
    requires
        has_no_version(rs, v),
    ensures
        last_current(rs, v) < 0,
    decreases rs.len(),
{
    if rs.len() > 0 {
        let init = rs.drop_last();
        assert(rs[rs.len() - 1].version != v);
        assert forall|k: int| 0 <= k < init.len() implies (#[trigger] init[k]).version != v by {
            assert(init[k] == rs[k]);
        }
        law_no_current_without_the_version(init, v);
    }
}

/// What the explorer shows and what it waits for: the input, its version (bumped on every
/// edit), the cipher values of its phrases, the selected row, the matches, and whether an
/// edit still waits to be sent for computation.
pub struct Session {
    pub input: String,
    pub input_version: u64,
    pub results: Vec<Gematria>,
    pub selected: Option<usize>,
    pub matches: Vec<String>,
    pub limit: usize,
    pub pending: bool,
}

impl Session {
    /// A session over `initial_text` (empty when none); a non-empty text is queued at once.
    pub fn new(limit: usize, initial_text: Option<String>) -> (s: Session)
        ensures
            s.input@ == (match initial_text {
                Some(t) => t@,
                None => Seq::empty(),
            }),
            s.limit == limit,
            s.results@.len() == 0,
            s.matches@.len() == 0,
            s.selected == None::<usize>,
            s.pending == (s.input@.len() > 0),
            s.input_version == (if s.input@.len() > 0 {
                1u64
            } else {
                0u64
            }),
    {
        let input = match initial_text {
            Some(t) => t,
            None => String::new(),
        };
        let mut s = Session {
            input,
            input_version: 0,
            results: Vec::new(),
            selected: None,
            matches: Vec::new(),
            limit,
            pending: false,
        };
        if !s.input.as_str().is_empty() {
            s.queue_recompute();
        }
        s
    }

    /// Marks the input as changed: a new version, waiting for the typing pause.
    pub fn queue_recompute(&mut self)
        ensures
            final(self).input_version == old(self).input_version.wrapping_add(1),
            final(self).pending,
            final(self).input == old(self).input,
            final(self).results == old(self).results,
            final(self).selected == old(self).selected,
            final(self).matches == old(self).matches,
            final(self).limit == old(self).limit,
    {
        self.input_version = self.input_version.wrapping_add(1);
        self.pending = true;
    }

    /// Replaces the input after an edit and queues it.
    pub fn edit(&mut self, input: String)
        ensures
            final(self).input@ == input@,
            final(self).input_version == old(self).input_version.wrapping_add(1),
            final(self).pending,
            final(self).results == old(self).results,
            final(self).selected == old(self).selected,
            final(self).matches == old(self).matches,
            final(self).limit == old(self).limit,
    {
        self.input = input;
        self.queue_recompute();
    }

    /// Called on every frame: once the typing pause has passed (`pause_elapsed`), hands out
    /// the waiting input with its version, and stops waiting.
    pub fn take_work(&mut self, pause_elapsed: bool) -> (r: Option<(u64, String)>)
        ensures
            old(self).pending && pause_elapsed ==> (r matches Some(w) && w.0 == old(self).input_version && w.1@ == old(self).input@ && !final(self).pending),
            !(old(self).pending && pause_elapsed) ==> r is None && final(self).pending == old(self).pending,
            final(self).input == old(self).input,
            final(self).input_version == old(self).input_version,
            final(self).results == old(self).results,
            final(self).selected == old(self).selected,
            final(self).matches == old(self).matches,
            final(self).limit == old(self).limit,
    {
        if self.pending && pause_elapsed {
            self.pending = false;
            Some((self.input_version, self.input.clone()))
        } else {
            None
        }
    }

    /// Applies a computed result if it is for the current version of the input; a result
    /// for an older version is stale and dropped. A non-empty result selects the first row.
    pub fn apply(&mut self, result: ComputeResult)
        ensures
            result.version == old(self).input_version ==> {
                &&& final(self).results == result.results
                &&& final(self).matches == result.matches
                &&& final(self).selected == if result.results@.len() > 0 {
                    Some(0usize)
                } else {
                    old(self).selected
                }
            },
            result.version != old(self).input_version ==> {
                &&& final(self).results == old(self).results
                &&& final(self).matches == old(self).matches
                &&& final(self).selected == old(self).selected
            },
            final(self).input == old(self).input,
            final(self).input_version == old(self).input_version,
            final(self).pending == old(self).pending,
            final(self).limit == old(self).limit,
    {
        if result.version == self.input_version {
            self.results = result.results;
            self.matches = result.matches;
            if self.results.len() > 0 {
                self.selected = Some(0);
            }
        }
    }

    /// Recomputes the matches for the selected row, when it is a row of the results: the
    /// dictionary words of its English value, then generated phrases in brackets.
    pub fn update_matches(&mut self, matrix: &Matrix, tagged_words: &[TaggedWord])
        ensures
            (match old(self).selected {
                Some(i) => i < old(self).results@.len(),
                None => false,
            }) ==> exists|seed: usize|
                seed < 1_000_000_000 && final(self).matches.deep_view() == #[trigger] match_list(
                    bucket_of(
                        matrix.indexed(),
                        Cipher::English,
                        old(self).results@[old(self).selected->0 as int].english,
                    ),
                    texts_of(
                        generated(
                            tagged_words@,
                            old(self).results@[old(self).selected->0 as int].english,
                            old(self).limit as int,
                            seed,
                        ),
                    ),
                ),
            !(match old(self).selected {
                Some(i) => i < old(self).results@.len(),
                None => false,
            }) ==> final(self).matches == old(self).matches,
            final(self).input == old(self).input,
            final(self).input_version == old(self).input_version,
            final(self).results == old(self).results,
            final(self).selected == old(self).selected,
            final(self).pending == old(self).pending,
            final(self).limit == old(self).limit,
    {
        if let Some(i) = self.selected {
            if i < self.results.len() {
                let english = self.results[i].english;
                self.matches = matches_for(matrix, tagged_words, english, self.limit);
            }
        }
    }

    /// Recomputes, in place, the cipher values of every phrase of the input; with results,
    /// selects the first row and recomputes its matches, else clears selection and matches.
    pub fn recompute(&mut self, matrix: &Matrix, tagged_words: &[TaggedWord])
        ensures
            results_for(final(self).results@, phrase_texts(old(self).input@, old(self).limit as int)),
            final(self).results@.len() > 0 ==> final(self).selected == Some(0usize)
                && exists|seed: usize|
                seed < 1_000_000_000 && final(self).matches.deep_view() == #[trigger] match_list(
                    bucket_of(matrix.indexed(), Cipher::English, final(self).results@[0].english),
                    texts_of(
                        generated(
                            tagged_words@,
                            final(self).results@[0].english,
                            old(self).limit as int,
                            seed,
                        ),
                    ),
                ),
            final(self).results@.len() == 0 ==> final(self).selected == None::<usize>
                && final(self).matches@.len() == 0,
            final(self).input == old(self).input,
            final(self).input_version == old(self).input_version,
            final(self).pending == old(self).pending,
            final(self).limit == old(self).limit,
    {
        let phrases = extract(self.input.as_str(), self.limit);
        let mut results: Vec<Gematria> = Vec::new();
        for i in 0..phrases.len()
            invariant
                results@.len() == i,
                forall|j: int|
                    0 <= j < i ==> (#[trigger] results@[j]).computed_from(phrases@[j].text@),
        {
            results.push(calculate(phrases[i].text.as_str()));
        }
        self.results = results;
        if self.results.len() > 0 {
            self.selected = Some(0);
            self.update_matches(matrix, tagged_words);
        } else {
            self.selected = None;
            self.matches = Vec::new();
        }
    }

    /// Applies, in order, the results that arrived since the last frame. Only results for
    /// the current version of the input count: the last of them gives the rows and the
    /// matches; the selection moves to the first row if one of them has rows. When none is
    /// for the current version, nothing changes.
    pub fn apply_all(&mut self, results: Vec<ComputeResult>)
        ensures
            last_current(results@, old(self).input_version) < 0 ==> {
                &&& final(self).results == old(self).results
                &&& final(self).matches == old(self).matches
            },
            last_current(results@, old(self).input_version) >= 0 ==> {
                &&& final(self).results == results@[last_current(
                    results@,
                    old(self).input_version,
                )].results
                &&& final(self).matches == results@[last_current(
                    results@,
                    old(self).input_version,
                )].matches
            },
            final(self).selected == if some_current_rows(results@, old(self).input_version) {
                Some(0usize)
            } else {
                old(self).selected
            },
            final(self).input == old(self).input,
            final(self).input_version == old(self).input_version,
            final(self).pending == old(self).pending,
            final(self).limit == old(self).limit,
            forall|i: int|
                #[trigger] is_last_of_version(results@, old(self).input_version, i) ==> final(self).results
                    == results@[i].results && final(self).matches == results@[i].matches,
            has_no_version(results@, old(self).input_version) ==> final(self).results == old(self).results
                && final(self).matches == old(self).matches,
    {
        proof {
            let v = self.input_version;
            assert forall|i: int| #[trigger] is_last_of_version(results@, v, i) implies last_current(
                results@,
                v,
            ) == i by {
                law_last_current_is_the_last_of_its_version(results@, v, i);
            }
            if has_no_version(results@, v) {
                law_no_current_without_the_version(results@, v);
            }
        }
        let ghost rs = results@;
        let ghost v = self.input_version;
        let ghost start = *self;
        let count = results.len();
        let mut rest = results;
        let mut i: usize = 0;
        assert(rs.take(0) =~= Seq::<ComputeResult>::empty());
        while rest.len() > 0
            invariant
                i <= rs.len(),
                rs.len() == count,
                rest@ == rs.skip(i as int),
                self.input_version == v,
                self.input == start.input,
                self.pending == start.pending,
                self.limit == start.limit,
                last_current(rs.take(i as int), v) < 0 ==> {
                    &&& self.results == start.results
                    &&& self.matches == start.matches
                },
                last_current(rs.take(i as int), v) >= 0 ==> {
                    &&& self.results == rs[last_current(rs.take(i as int), v)].results
                    &&& self.matches == rs[last_current(rs.take(i as int), v)].matches
                },
                self.selected == if some_current_rows(rs.take(i as int), v) {
                    Some(0usize)
                } else {
                    start.selected
                },
            decreases rest@.len(),
        {
            let r = rest.remove(0);
            proof {
                assert(r == rs[i as int]);
                let pre = rs.take(i as int);
                let post = rs.take(i + 1);
                assert(post.drop_last() == pre);
                assert(post.last() == r);
                lemma_last_current_bounds(pre, v);
                if last_current(pre, v) >= 0 {
                    assert(pre[last_current(pre, v)] == rs[last_current(pre, v)]);
                }
                if some_current_rows(pre, v) {
                    let j = choose|j: int| 0 <= j < pre.len() && (#[trigger] pre[j]).version == v
                        && pre[j].results@.len() > 0;
                    assert(post[j] == pre[j]);
                }
                if some_current_rows(post, v) && !(r.version == v && r.results@.len() > 0) {
                    let j = choose|j: int| 0 <= j < post.len() && (#[trigger] post[j]).version == v
                        && post[j].results@.len() > 0;
                    assert(j < pre.len());
                    assert(pre[j] == post[j]);
                }
                if r.version == v && r.results@.len() > 0 {
                    assert(post[i as int] == r);
                }
            }
            self.apply(r);
            i += 1;
            proof {
                assert(rest@ =~= rs.skip(i as int));
            }
        }
        assert(rs.take(rs.len() as int) == rs);
    }

    /// Selects a row of the results and shows the matches of its English value.
    pub fn select_and_update(&mut self, row: usize, matrix: &Matrix, tagged_words: &[TaggedWord])
        ensures
            final(self).selected == Some(row),
            row < old(self).results@.len() ==> exists|seed: usize|
                seed < 1_000_000_000 && final(self).matches.deep_view() == #[trigger] match_list(
                    bucket_of(matrix.indexed(), Cipher::English, old(self).results@[row as int].english),
                    texts_of(
                        generated(
                            tagged_words@,
                            old(self).results@[row as int].english,
                            old(self).limit as int,
                            seed,
                        ),
                    ),
                ),
            row >= old(self).results@.len() ==> final(self).matches == old(self).matches,
            final(self).input == old(self).input,
            final(self).input_version == old(self).input_version,
            final(self).results == old(self).results,
            final(self).pending == old(self).pending,
            final(self).limit == old(self).limit,
    {
        self.select(row);
        self.update_matches(matrix, tagged_words);
    }

    /// Selects a row of the results.
    pub fn select(&mut self, row: usize)
        ensures
            final(self).selected == Some(row),
            final(self).input == old(self).input,
            final(self).input_version == old(self).input_version,
            final(self).results == old(self).results,
            final(self).matches == old(self).matches,
            final(self).pending == old(self).pending,
            final(self).limit == old(self).limit,
    {
        self.selected = Some(row);
    }
}

} // verus!
