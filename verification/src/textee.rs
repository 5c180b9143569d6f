use vstd::prelude::*;

verus! {

/// Whether `c` has the Unicode White_Space property: tab, line feed, vertical tab, form
/// feed, carriage return, space, next line, no-break space, ogham space mark, the spaces
/// U+2000 to U+200A, line and paragraph separators, narrow no-break space, medium
/// mathematical space and ideographic space.
pub open spec fn is_white_space(c: char) -> bool {
    let u = c as int;
    ||| 0x9 <= u <= 0xD
    ||| u == 0x20
    ||| u == 0x85
    ||| u == 0xA0
    ||| u == 0x1680
    ||| 0x2000 <= u <= 0x200A
    ||| u == 0x2028
    ||| u == 0x2029
    ||| u == 0x202F
    ||| u == 0x205F
    ||| u == 0x3000
}

/// The maximal runs of non-whitespace chars of `s`, in order.
pub open spec fn whitespace_words(s: Seq<char>) -> Seq<Seq<char>>
    decreases s.len(),
{
    if s.len() == 0 {
        Seq::empty()
    } else {
        let w = whitespace_words(s.drop_last());
        let c = s.last();
        if is_white_space(c) {
            w
        } else if s.len() >= 2 && !is_white_space(s[s.len() - 2]) && w.len() > 0 {
            w.update(w.len() - 1, w.last().push(c))
        } else {
            w.push(seq![c])
        }
    }
}

/// Calls `str::split_whitespace` and collects the pieces: the maximal runs of chars without
/// the White_Space property, as std documents.
#[verifier::external_body]
fn split_whitespace<'a>(s: &'a str) -> (r: Vec<&'a str>)
    ensures
        r.deep_view() == whitespace_words(s@),
{
    s.split_whitespace().collect()
}

/// The words joined with one space between each two, as `[&str]::join(" ")` does.
pub open spec fn join_words(ws: Seq<Seq<char>>) -> Seq<char>
    decreases ws.len(),
{
    if ws.len() == 0 {
        Seq::empty()
    } else if ws.len() == 1 {
        ws[0]
    } else {
        join_words(ws.drop_last()) + seq![' '] + ws.last()
    }
}

pub open spec fn min(a: int, b: int) -> int {
    if a <= b {
        a
    } else {
        b
    }
}

/// The windows `(start, length)` over `n` words, of 1 up to `limit` words, for every start
/// below `upto`: by start, and for each start by length.
pub open spec fn windows_before(n: int, limit: int, upto: int) -> Seq<(int, int)>
    decreases upto,
{
    if upto <= 0 {
        Seq::empty()
    } else {
        let s = upto - 1;
        windows_before(n, limit, s) + Seq::new(
            if min(limit, n - s) < 0 {
                0nat
            } else {
                min(limit, n - s) as nat
            },
            |k: int| (s, k + 1),
        )
    }
}

/// All windows over `n` words of at most `limit` words.
pub open spec fn windows(n: int, limit: int) -> Seq<(int, int)> {
    windows_before(n, limit, n)
}

/// A phrase extracted from the input, with the position of its first word.
#[derive(Debug, Clone)]
pub struct Phrase {
    pub text: String,
    /// Index of the first word of this phrase.
    pub word_start: usize,
    /// How many words the phrase holds.
    pub word_count: usize,
}

/// Whether `p` is the window `w` over `words`.
pub open spec fn is_window(p: Phrase, words: Seq<Seq<char>>, w: (int, int)) -> bool {
    &&& p.word_start == w.0
    &&& p.word_count == w.1
    &&& p.text@ == join_words(words.subrange(w.0, w.0 + w.1))
}

/// Whether `phrases` lists exactly the windows of at most `limit` words over `words`.
pub open spec fn lists_windows(phrases: Seq<Phrase>, words: Seq<Seq<char>>, limit: int) -> bool {
    let ws = windows(words.len() as int, limit);
    &&& phrases.len() == ws.len()
    &&& forall|i: int| 0 <= i < ws.len() ==> is_window(#[trigger] phrases[i], words, ws[i])
}

/// The texts of the phrases that `extract` gives for input chars `s`, in order.
pub open spec fn phrase_texts(s: Seq<char>, limit: int) -> Seq<Seq<char>> {
    let words = whitespace_words(s);
    let ws = windows(words.len() as int, limit);
    Seq::new(ws.len(), |i: int| join_words(words.subrange(ws[i].0, ws[i].0 + ws[i].1)))
}

/// Whether `phrases` are the windows `ws` over `words`, one by one.
pub open spec fn lists(phrases: Seq<Phrase>, words: Seq<Seq<char>>, ws: Seq<(int, int)>) -> bool {
    &&& phrases.len() == ws.len()
    &&& forall|i: int| 0 <= i < ws.len() ==> is_window(#[trigger] phrases[i], words, ws[i])
}

/// With a limit of zero (or less) there is no window.
pub proof fn law_no_windows_without_limit(n: int, limit: int, upto: int)
    requires
        limit <= 0,
    ensures
        windows_before(n, limit, upto).len() == 0,
    decreases upto,
{
    if upto > 0 {
        law_no_windows_without_limit(n, limit, upto - 1);
    }
}

/// Every window starts at a word, holds 1 up to `limit` words, and ends by the last word;
/// the windows are listed by start, and for one start by length.
pub proof fn law_windows_in_bounds(n: int, limit: int, upto: int)
    requires
        upto <= n,
    ensures
        forall|i: int|
            0 <= i < windows_before(n, limit, upto).len() ==> {
                let w = #[trigger] windows_before(n, limit, upto)[i];
                &&& 0 <= w.0 < upto
                &&& 1 <= w.1 <= limit
                &&& w.0 + w.1 <= n
            },
        forall|i: int, j: int|
            0 <= i < j < windows_before(n, limit, upto).len() ==> {
                let a = #[trigger] windows_before(n, limit, upto)[i];
                let b = #[trigger] windows_before(n, limit, upto)[j];
                a.0 < b.0 || (a.0 == b.0 && a.1 < b.1)
            },
    decreases upto,
{
    if upto > 0 {
        let s = upto - 1;
        law_windows_in_bounds(n, limit, s);
        let before = windows_before(n, limit, s);
        let all = windows_before(n, limit, upto);
        let m = if min(limit, n - s) < 0 {
            0nat
        } else {
            min(limit, n - s) as nat
        };
        let here = Seq::new(m, |k: int| (s, k + 1));
        assert(all == before + here);
        assert forall|i: int| 0 <= i < all.len() implies {
            let w = #[trigger] all[i];
            &&& 0 <= w.0 < upto
            &&& 1 <= w.1 <= limit
            &&& w.0 + w.1 <= n
        } by {
            if i >= before.len() {
                assert(all[i] == here[i - before.len()]);
            } else {
                assert(all[i] == before[i]);
            }
        }
        assert forall|i: int, j: int| 0 <= i < j < all.len() implies {
            let a = #[trigger] all[i];
            let b = #[trigger] all[j];
            a.0 < b.0 || (a.0 == b.0 && a.1 < b.1)
        } by {
            if j < before.len() {
                assert(all[i] == before[i] && all[j] == before[j]);
            } else if i < before.len() {
                assert(all[i] == before[i]);
                assert(all[j] == here[j - before.len()]);
            } else {
                assert(all[i] == here[i - before.len()]);
                assert(all[j] == here[j - before.len()]);
            }
        }
    }
}

/// The windows of `ws` that hold at most `limit` words, in order.
pub open spec fn at_most(ws: Seq<(int, int)>, limit: int) -> Seq<(int, int)>
    decreases ws.len(),
{
    if ws.len() == 0 {
        Seq::empty()
    } else {
        let rest = at_most(ws.drop_last(), limit);
        if ws.last().1 <= limit {
            rest.push(ws.last())
        } else {
            rest
        }
    }
}

proof fn lemma_at_most_append(a: Seq<(int, int)>, b: Seq<(int, int)>, limit: int)
    ensures
        at_most(a + b, limit) == at_most(a, limit) + at_most(b, limit),
    decreases b.len(),
{
    if b.len() == 0 {
        assert(a + b == a);
        assert(at_most(a, limit) + at_most(b, limit) == at_most(a, limit));
    } else {
        lemma_at_most_append(a, b.drop_last(), limit);
        assert((a + b).drop_last() == a + b.drop_last());
    }
}

proof fn lemma_at_most_lengths(s: int, m: nat, limit: int)
    requires
        0 <= limit,
    ensures
        at_most(Seq::new(m, |k: int| (s, k + 1)), limit) == Seq::new(
            if m <= limit { m } else { limit as nat },
            |k: int| (s, k + 1),
        ),
    decreases m,
{
    let full = Seq::new(m, |k: int| (s, k + 1));
    if m > 0 {
        lemma_at_most_lengths(s, (m - 1) as nat, limit);
        assert(full.drop_last() =~= Seq::new((m - 1) as nat, |k: int| (s, k + 1)));
        let expect = Seq::new(if m <= limit { m } else { limit as nat }, |k: int| (s, k + 1));
        let prev = Seq::new(
            if m - 1 <= limit { (m - 1) as nat } else { limit as nat },
            |k: int| (s, k + 1),
        );
        if m <= limit {
            assert(expect =~= prev.push((s, m as int)));
        } else {
            assert(expect =~= prev);
        }
    } else {
        assert(full =~= Seq::<(int, int)>::empty());
    }
}

/// Raising the limit only adds longer phrases: the windows of at most `small` words are
/// those of at most `large` words that hold at most `small` words, in the same order.
pub proof fn law_limit_monotone(n: int, small: int, large: int, upto: int)
    requires
        0 <= small <= large,
    ensures
        windows_before(n, small, upto) == at_most(windows_before(n, large, upto), small),
    decreases upto,
{
    if upto > 0 {
        let s = upto - 1;
        law_limit_monotone(n, small, large, s);
        let ml = if min(large, n - s) < 0 { 0nat } else { min(large, n - s) as nat };
        let ms = if min(small, n - s) < 0 { 0nat } else { min(small, n - s) as nat };
        lemma_at_most_append(
            windows_before(n, large, s),
            Seq::new(ml, |k: int| (s, k + 1)),
            small,
        );
        lemma_at_most_lengths(s, ml, small);
        assert(Seq::new(if ml <= small { ml } else { small as nat }, |k: int| (s, k + 1))
            =~= Seq::new(ms, |k: int| (s, k + 1)));
    } else {
        assert(at_most(windows_before(n, large, upto), small) =~= Seq::empty());
    }
}

/// A limit of at least the number of words gives every window: the same as that number.
pub proof fn law_limit_beyond_words(n: int, limit: int, upto: int)
    requires
        0 <= n <= limit,
        upto <= n,
    ensures
        windows_before(n, limit, upto) == windows_before(n, n, upto),
    decreases upto,
{
    if upto > 0 {
        law_limit_beyond_words(n, limit, upto - 1);
    }
}

/// Every window of 1 up to `limit` words over `n` words is listed.
pub proof fn law_windows_complete(n: int, limit: int, start: int, len: int)
    requires
        0 <= start,
        1 <= len <= limit,
        start + len <= n,
    ensures
        windows(n, limit).contains((start, len)),
{
    lemma_windows_prefix(n, limit, start + 1, n);
    let before = windows_before(n, limit, start);
    let here = windows_before(n, limit, start + 1);
    assert(here[before.len() + len - 1] == (start, len));
    assert(windows(n, limit)[before.len() + len - 1] == (start, len));
}

proof fn lemma_windows_prefix(n: int, limit: int, a: int, b: int)
    requires
        0 <= a <= b,
    ensures
        windows_before(n, limit, a).len() <= windows_before(n, limit, b).len(),
        forall|i: int|
            0 <= i < windows_before(n, limit, a).len() ==> #[trigger] windows_before(n, limit, a)[i]
                == windows_before(n, limit, b)[i],
    decreases b,
{
    if a < b {
        lemma_windows_prefix(n, limit, a, b - 1);
    }
}

/// Joins `len` words from `start` with single spaces.
fn join_range(words: &Vec<&str>, start: usize, len: usize) -> (r: String)
    requires
        1 <= len,
        start + len <= words.len(),
    ensures
        r@ == join_words(words.deep_view().subrange(start as int, start + len)),
{
    let ghost dv = words.deep_view();
    let mut text = String::from_str(words[start]);
    proof {
        reveal_strlit(" ");
        assert(dv.subrange(start as int, start + 1).len() == 1);
    }
    let mut j: usize = 1;
    while j < len
        invariant
            1 <= j <= len,
            start + len <= words.len(),
            dv == words.deep_view(),
            " "@ == seq![' '],
            text@ == join_words(dv.subrange(start as int, start + j)),
        decreases len - j,
    {
        text.append(" ");
        text.append(words[start + j]);
        proof {
            let sub = dv.subrange(start as int, start + j + 1);
            assert(sub.drop_last() == dv.subrange(start as int, start + j));
            assert(sub.last() == words[start + j as int]@);
        }
        j += 1;
    }
    text
}

/// Joins the words with single spaces, as `[String]::join(" ")` does.
pub fn join_strings(words: &Vec<String>) -> (r: String)
    ensures
        r@ == join_words(words.deep_view()),
{
    let ghost dv = words.deep_view();
    let mut text = String::new();
    if words.len() == 0 {
        return text;
    }
    text.append(words[0].as_str());
    proof {
        reveal_strlit(" ");
        assert(dv.subrange(0, 1).len() == 1);
    }
    let mut j: usize = 1;
    while j < words.len()
        invariant
            1 <= j <= words@.len(),
            dv == words.deep_view(),
            " "@ == seq![' '],
            text@ == join_words(dv.subrange(0, j as int)),
        decreases words@.len() - j,
    {
        text.append(" ");
        text.append(words[j].as_str());
        proof {
            let sub = dv.subrange(0, j + 1);
            assert(sub.drop_last() == dv.subrange(0, j as int));
            assert(sub.last() == words@[j as int]@);
        }
        j += 1;
    }
    assert(dv.subrange(0, dv.len() as int) == dv);
    text
}

/// Extracts every sliding-window phrase of 1 up to `limit` words from the input's
/// whitespace-separated words: for each starting word in order, the phrases of 1, 2, ...
/// words, never running past the last word. `limit == 3` gives phrases of 1, 2 and 3 words.
pub fn extract(input: &str, limit: usize) -> (r: Vec<Phrase>)
    ensures
        lists_windows(r@, whitespace_words(input@), limit as int),
        input@.len() == 0 ==> r@.len() == 0,
        limit == 0 ==> r@.len() == 0,
{
    let words = split_whitespace(input);
    let ghost dv = words.deep_view();
    let n = words.len();
    if n == 0 || limit == 0 {
        proof {
            if limit == 0 {
                law_no_windows_without_limit(n as int, 0, n as int);
            }
        }
        return Vec::new();
    }
    let mut phrases: Vec<Phrase> = Vec::new();
    let mut start: usize = 0;
    while start < n
        invariant
            n == words@.len(),
            dv == words.deep_view(),
            dv == whitespace_words(input@),
            start <= n,
            lists(phrases@, dv, windows_before(n as int, limit as int, start as int)),
        decreases n - start,
    {
        let max_len = if limit < n - start {
            limit
        } else {
            n - start
        };
        let ghost before = windows_before(n as int, limit as int, start as int);
        let mut k: usize = 0;
        while k < max_len
            invariant
                n == words@.len(),
                dv == words.deep_view(),
                start < n,
                max_len == min(limit as int, n - start),
                k <= max_len,
                lists(phrases@, dv, before + Seq::new(k as nat, |j: int| (start as int, j + 1))),
            decreases max_len - k,
        {
            let len = k + 1;
            let text = join_range(&words, start, len);
            let ghost old_phrases = phrases@;
            phrases.push(Phrase { text, word_start: start, word_count: len });
            proof {
                let ws_old = before + Seq::new(k as nat, |j: int| (start as int, j + 1));
                let ws_new = before + Seq::new(len as nat, |j: int| (start as int, j + 1));
                assert(ws_new =~= ws_old.push((start as int, len as int)));
                assert forall|i: int| 0 <= i < ws_new.len() implies is_window(
                    #[trigger] phrases@[i],
                    dv,
                    ws_new[i],
                ) by {
                    if i < ws_old.len() {
                        assert(phrases@[i] == old_phrases[i]);
                    }
                }
            }
            k += 1;
        }
        proof {
            let ws = before + Seq::new(max_len as nat, |j: int| (start as int, j + 1));
            assert(ws =~= windows_before(n as int, limit as int, start + 1));
        }
        start += 1;
    }
    phrases
}

} // verus!

verus! {

/// Whether every word is non-empty and holds no whitespace char.
pub open spec fn plain_words(ws: Seq<Seq<char>>) -> bool {
    forall|i: int|
        0 <= i < ws.len() ==> (#[trigger] ws[i]).len() > 0 && forall|j: int|
            0 <= j < ws[i].len() ==> !is_white_space(#[trigger] ws[i][j])
}

/// The words of any text are non-empty and hold no whitespace.
pub proof fn law_words_are_plain(s: Seq<char>)
    ensures
        plain_words(whitespace_words(s)),
        s.len() > 0 && !is_white_space(s.last()) ==> whitespace_words(s).len() > 0 && whitespace_words(
            s,
        ).last().last() == s.last(),
    decreases s.len(),
{
    if s.len() > 0 {
        let init = s.drop_last();
        law_words_are_plain(init);
        let w = whitespace_words(init);
        let c = s.last();
        let r = whitespace_words(s);
        if !is_white_space(c) {
            if s.len() >= 2 && !is_white_space(s[s.len() - 2]) && w.len() > 0 {
                assert(init.last() == s[s.len() - 2]);
                let nw = w.last().push(c);
                assert(r == w.update(w.len() - 1, nw));
                assert forall|i: int| 0 <= i < r.len() implies (#[trigger] r[i]).len() > 0 && forall|j: int|
                    0 <= j < r[i].len() ==> !is_white_space(#[trigger] r[i][j]) by {
                    if i == w.len() - 1 {
                        assert forall|j: int| 0 <= j < r[i].len() implies !is_white_space(
                            #[trigger] r[i][j],
                        ) by {
                            if j < w.last().len() {
                                assert(r[i][j] == w[i][j]);
                            }
                        }
                    } else {
                        assert(r[i] == w[i]);
                    }
                }
            } else {
                assert forall|i: int| 0 <= i < r.len() implies (#[trigger] r[i]).len() > 0 && forall|j: int|
                    0 <= j < r[i].len() ==> !is_white_space(#[trigger] r[i][j]) by {
                    if i < w.len() {
                        assert(r[i] == w[i]);
                    } else {
                        assert(r[i] == seq![c]);
                    }
                }
            }
        }
    }
}

/// Appending the first `k` chars of a plain word after a whitespace char (or at the start)
/// adds that many chars as one new word.
proof fn lemma_words_of_new_word(p: Seq<char>, y: Seq<char>, k: int)
    requires
        p.len() == 0 || is_white_space(p.last()),
        1 <= k <= y.len(),
        forall|j: int| 0 <= j < y.len() ==> !is_white_space(#[trigger] y[j]),
    ensures
        whitespace_words(p + y.take(k)) == whitespace_words(p).push(y.take(k)),
    decreases k,
{
    let s = p + y.take(k);
    assert(s.drop_last() == p + y.take(k - 1));
    assert(s.last() == y[k - 1]);
    if k == 1 {
        assert(p + y.take(0) == p);
        assert(y.take(1) =~= seq![y[0]]);
        if s.len() >= 2 {
            assert(s[s.len() - 2] == p.last());
        }
    } else {
        lemma_words_of_new_word(p, y, k - 1);
        assert(s[s.len() - 2] == y[k - 2]);
        let w = whitespace_words(p + y.take(k - 1));
        assert(w.len() > 0);
        assert(w.last() == y.take(k - 1));
        assert(y.take(k - 1).push(y[k - 1]) =~= y.take(k));
        assert(w.update(w.len() - 1, w.last().push(y[k - 1])) =~= whitespace_words(p).push(
            y.take(k),
        ));
    }
}

/// Splitting the words joined with single spaces gives the words back.
pub proof fn law_split_join(ws: Seq<Seq<char>>)
    requires
        plain_words(ws),
    ensures
        whitespace_words(join_words(ws)) == ws,
    decreases ws.len(),
{
    if ws.len() == 1 {
        let y = ws[0];
        lemma_words_of_new_word(Seq::empty(), y, y.len() as int);
        assert(Seq::<char>::empty() + y.take(y.len() as int) == y);
        assert(whitespace_words(Seq::<char>::empty()) =~= Seq::<Seq<char>>::empty());
        assert(Seq::<Seq<char>>::empty().push(y) =~= ws);
    } else if ws.len() > 1 {
        let init = ws.drop_last();
        let y = ws.last();
        assert(plain_words(init)) by {
            assert forall|i: int| 0 <= i < init.len() implies (#[trigger] init[i]).len() > 0
                && forall|j: int| 0 <= j < init[i].len() ==> !is_white_space(#[trigger] init[i][j]) by {
                assert(init[i] == ws[i]);
            }
        }
        law_split_join(init);
        let x = join_words(init);
        let p = x + seq![' '];
        assert(p.last() == ' ');
        assert(p.drop_last() == x);
        assert(is_white_space(' '));
        assert(whitespace_words(p) == whitespace_words(x));
        assert(y == ws[ws.len() - 1]);
        lemma_words_of_new_word(p, y, y.len() as int);
        assert(y.take(y.len() as int) == y);
        assert(join_words(ws) == p + y);
        assert(init.push(y) =~= ws);
    } else {
        assert(join_words(ws) =~= Seq::<char>::empty());
    }
}

/// Spacing does not matter to `extract`: a text and its words joined with single spaces
/// have the same words, so `extract` lists the same phrases for both.
pub proof fn law_spacing_ignored(s: Seq<char>)
    ensures
        whitespace_words(join_words(whitespace_words(s))) == whitespace_words(s),
{
    law_words_are_plain(s);
    law_split_join(whitespace_words(s));
}

/// `extract` depends on the words alone: two lists of the windows over the same words, with
/// the same limit, agree phrase by phrase.
pub proof fn law_phrases_follow_words(
    p1: Seq<Phrase>,
    p2: Seq<Phrase>,
    words: Seq<Seq<char>>,
    limit: int,
)
    requires
        lists_windows(p1, words, limit),
        lists_windows(p2, words, limit),
    ensures
        p1.len() == p2.len(),
        forall|i: int|
            0 <= i < p1.len() ==> (#[trigger] p1[i]).text@ == p2[i].text@ && p1[i].word_start
                == p2[i].word_start && p1[i].word_count == p2[i].word_count,
{
    assert forall|i: int| 0 <= i < p1.len() implies (#[trigger] p1[i]).text@ == p2[i].text@
        && p1[i].word_start == p2[i].word_start && p1[i].word_count == p2[i].word_count by {
        assert(is_window(p1[i], words, windows(words.len() as int, limit)[i]));
        assert(is_window(p2[i], words, windows(words.len() as int, limit)[i]));
    }
}

} // verus!
