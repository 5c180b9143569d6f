use crate::cipher::{calculate, gematria_value};
use crate::dictionary::{all_words, combined_words};
use std::collections::HashMap;
use vstd::multiset::Multiset;
use vstd::prelude::*;

verus! {

broadcast use vstd::std_specs::hash::group_hash_axioms;

/// The six cipher systems; call sites name one explicitly.
#[derive(Debug, Clone, Copy, PartialEq, Eq, Structural, Hash)]
pub enum Cipher {
    English,
    Jewish,
    Simple,
    Mystery,
    Majestic,
    Eights,
}

/// The words of `ws` whose value under `cipher` is `value`, in order.
pub open spec fn bucket_of(ws: Seq<Seq<char>>, cipher: Cipher, value: u64) -> Seq<Seq<char>>
    decreases ws.len(),
{
    if ws.len() == 0 {
        Seq::empty()
    } else {
        let rest = bucket_of(ws.drop_last(), cipher, value);
        if gematria_value(cipher, ws.last()) == value {
            rest.push(ws.last())
        } else {
            rest
        }
    }
}

/// The words that the matrix indexes: every word of the four dictionaries, in order.
pub open spec fn indexed_words() -> Seq<Seq<char>> {
    combined_words()
}

/// Whether `m` holds, for each value, exactly the non-empty bucket of `ws` under `cipher`.
pub open spec fn indexes(m: Map<u64, Vec<String>>, ws: Seq<Seq<char>>, cipher: Cipher) -> bool {
    forall|v: u64|
        (#[trigger] m.contains_key(v) <==> bucket_of(ws, cipher, v).len() > 0) && (m.contains_key(v)
            ==> m[v].deep_view() == bucket_of(ws, cipher, v))
}

/// Index of every dictionary word by its value under each cipher:
/// `lookup(Cipher::English, 306)` gives `["andrei", "michael", ...]`.
pub struct Matrix {
    english: HashMap<u64, Vec<String>>,
    jewish: HashMap<u64, Vec<String>>,
    simple: HashMap<u64, Vec<String>>,
    mystery: HashMap<u64, Vec<String>>,
    majestic: HashMap<u64, Vec<String>>,
    eights: HashMap<u64, Vec<String>>,
    words: Ghost<Seq<Seq<char>>>,
}

impl Matrix {
    /// The map that holds the buckets of one cipher.
    pub closed spec fn table(self, cipher: Cipher) -> Map<u64, Vec<String>> {
        match cipher {
            Cipher::English => self.english@,
            Cipher::Jewish => self.jewish@,
            Cipher::Simple => self.simple@,
            Cipher::Mystery => self.mystery@,
            Cipher::Majestic => self.majestic@,
            Cipher::Eights => self.eights@,
        }
    }

    /// The words the matrix indexes, in the order they were added.
    pub closed spec fn indexed(self) -> Seq<Seq<char>> {
        self.words@
    }

    #[verifier::type_invariant]
    closed spec fn well_formed(self) -> bool {
        &&& self.words@.len() <= usize::MAX
        &&& forall|c: Cipher| #[trigger] indexes(self.table(c), self.words@, c)
    }
}

/// Adds `word` to the bucket of `value`.
fn add_word(m: &mut HashMap<u64, Vec<String>>, value: u64, word: &str)
    ensures
        final(m)@.dom() == old(m)@.dom().insert(value),
        forall|v: u64| v != value && old(m)@.contains_key(v) ==> #[trigger] final(m)@[v] == old(m)@[v],
        final(m)@[value].deep_view() == (if old(m)@.contains_key(value) {
            old(m)@[value].deep_view()
        } else {
            Seq::empty()
        }).push(word@),
{
    match m.remove(&value) {
        Some(mut bucket) => {
            bucket.push(String::from_str(word));
            m.insert(value, bucket);
        },
        None => {
            let mut bucket: Vec<String> = Vec::new();
            bucket.push(String::from_str(word));
            m.insert(value, bucket);
        },
    }
}

/// Adding a word to the bucket of its own value keeps a map indexing the words seen so far.
proof fn lemma_indexes_push(
    m: Map<u64, Vec<String>>,
    m2: Map<u64, Vec<String>>,
    ws: Seq<Seq<char>>,
    w: Seq<char>,
    c: Cipher,
)
    requires
        indexes(m, ws, c),
        m2.dom() == m.dom().insert(gematria_value(c, w)),
        forall|v: u64| v != gematria_value(c, w) && m.contains_key(v) ==> #[trigger] m2[v] == m[v],
        m2[gematria_value(c, w)].deep_view() == (if m.contains_key(gematria_value(c, w)) {
            m[gematria_value(c, w)].deep_view()
        } else {
            Seq::empty()
        }).push(w),
    ensures
        indexes(m2, ws.push(w), c),
{
    let ws2 = ws.push(w);
    assert(ws2.drop_last() == ws);
    assert forall|v: u64|
        (#[trigger] m2.contains_key(v) <==> bucket_of(ws2, c, v).len() > 0) && (m2.contains_key(v)
            ==> m2[v].deep_view() == bucket_of(ws2, c, v)) by {
        assert(m.contains_key(v) <==> bucket_of(ws, c, v).len() > 0);
        if m.contains_key(v) {
            assert(m[v].deep_view() == bucket_of(ws, c, v));
        }
        if v != gematria_value(c, w) && !m.contains_key(v) {
            assert(bucket_of(ws, c, v) =~= Seq::<Seq<char>>::empty());
        }
    }
}

/// Sum, over the keys in `keys`, of the sizes of the buckets of `ws` under `cipher`.
pub open spec fn bucket_total(ws: Seq<Seq<char>>, cipher: Cipher, keys: Seq<u64>) -> int
    decreases keys.len(),
{
    if keys.len() == 0 {
        0
    } else {
        bucket_total(ws, cipher, keys.drop_last()) + bucket_of(ws, cipher, keys.last()).len()
    }
}

/// How many times `v` occurs in `keys`.
pub open spec fn occurrences(keys: Seq<u64>, v: u64) -> int
    decreases keys.len(),
{
    if keys.len() == 0 {
        0
    } else {
        occurrences(keys.drop_last(), v) + if keys.last() == v {
            1int
        } else {
            0
        }
    }
}

proof fn lemma_occurrences_unique(keys: Seq<u64>, v: u64)
    requires
        keys.no_duplicates(),
    ensures
        occurrences(keys, v) == if keys.contains(v) {
            1int
        } else {
            0
        },
    decreases keys.len(),
{
    if keys.len() > 0 {
        let init = keys.drop_last();
        assert(init.no_duplicates());
        lemma_occurrences_unique(init, v);
        if keys.last() == v {
            assert(!init.contains(v));
        } else {
            if keys.contains(v) {
                let j = choose|j: int| 0 <= j < keys.len() && keys[j] == v;
                assert(init[j] == v);
            }
            if init.contains(v) {
                let j = choose|j: int| 0 <= j < init.len() && init[j] == v;
                assert(keys[j] == v);
            }
        }
    }
}

proof fn lemma_bucket_total_empty(cipher: Cipher, keys: Seq<u64>)
    ensures
        bucket_total(Seq::empty(), cipher, keys) == 0,
    decreases keys.len(),
{
    if keys.len() > 0 {
        lemma_bucket_total_empty(cipher, keys.drop_last());
    }
}

proof fn lemma_bucket_total_push(ws: Seq<Seq<char>>, w: Seq<char>, cipher: Cipher, keys: Seq<u64>)
    ensures
        bucket_total(ws.push(w), cipher, keys) == bucket_total(ws, cipher, keys) + occurrences(
            keys,
            gematria_value(cipher, w),
        ),
    decreases keys.len(),
{
    assert(ws.push(w).drop_last() == ws);
    if keys.len() > 0 {
        lemma_bucket_total_push(ws, w, cipher, keys.drop_last());
    }
}

proof fn lemma_bucket_total_prefix(ws: Seq<Seq<char>>, cipher: Cipher, keys: Seq<u64>, i: int)
    requires
        0 <= i <= keys.len(),
    ensures
        0 <= bucket_total(ws, cipher, keys.take(i)) <= bucket_total(ws, cipher, keys),
    decreases keys.len(),
{
    if keys.len() > 0 {
        if i == keys.len() {
            assert(keys.take(i) == keys);
            lemma_bucket_total_prefix(ws, cipher, keys.drop_last(), i - 1);
            assert(keys.drop_last().take(i - 1) == keys.take(i - 1));
        } else {
            lemma_bucket_total_prefix(ws, cipher, keys.drop_last(), i);
            assert(keys.drop_last().take(i) == keys.take(i));
        }
    }
}

/// Summing the bucket sizes over keys that hold each word's value once counts every word once.
pub proof fn law_bucket_total_counts_words(ws: Seq<Seq<char>>, cipher: Cipher, keys: Seq<u64>)
    requires
        keys.no_duplicates(),
        forall|i: int| 0 <= i < ws.len() ==> keys.contains(gematria_value(cipher, #[trigger] ws[i])),
    ensures
        bucket_total(ws, cipher, keys) == ws.len(),
    decreases ws.len(),
{
    if ws.len() == 0 {
        lemma_bucket_total_empty(cipher, keys);
        assert(ws == Seq::<Seq<char>>::empty());
    } else {
        let init = ws.drop_last();
        assert forall|i: int| 0 <= i < init.len() implies keys.contains(
            gematria_value(cipher, #[trigger] init[i]),
        ) by {
            assert(init[i] == ws[i]);
        }
        law_bucket_total_counts_words(init, cipher, keys);
        assert(init.push(ws.last()) == ws);
        lemma_bucket_total_push(init, ws.last(), cipher, keys);
        assert(keys.contains(gematria_value(cipher, ws[ws.len() - 1])));
        lemma_occurrences_unique(keys, gematria_value(cipher, ws.last()));
    }
}

/// Every word of a bucket has the bucket's value under its cipher and is one of the words.
pub proof fn law_bucket_sound(ws: Seq<Seq<char>>, cipher: Cipher, value: u64)
    ensures
        forall|i: int|
            0 <= i < bucket_of(ws, cipher, value).len() ==> gematria_value(
                cipher,
                #[trigger] bucket_of(ws, cipher, value)[i],
            ) == value && ws.contains(bucket_of(ws, cipher, value)[i]),
    decreases ws.len(),
{
    if ws.len() > 0 {
        let init = ws.drop_last();
        law_bucket_sound(init, cipher, value);
        let b = bucket_of(ws, cipher, value);
        assert forall|i: int| 0 <= i < b.len() implies gematria_value(cipher, #[trigger] b[i])
            == value && ws.contains(b[i]) by {
            if i < bucket_of(init, cipher, value).len() {
                let w = bucket_of(init, cipher, value)[i];
                assert(b[i] == w);
                let j = choose|j: int| 0 <= j < init.len() && init[j] == w;
                assert(ws[j] == w);
            } else {
                assert(ws[ws.len() - 1] == b[i]);
            }
        }
    }
}

/// Every word is found in the bucket of its own value, under every cipher.
pub proof fn law_bucket_complete(ws: Seq<Seq<char>>, cipher: Cipher, i: int)
    requires
        0 <= i < ws.len(),
    ensures
        bucket_of(ws, cipher, gematria_value(cipher, ws[i])).contains(ws[i]),
    decreases ws.len(),
{
    let v = gematria_value(cipher, ws[i]);
    if i < ws.len() - 1 {
        let init = ws.drop_last();
        assert(init[i] == ws[i]);
        law_bucket_complete(init, cipher, i);
        let k = choose|k: int|
            0 <= k < bucket_of(init, cipher, v).len() && bucket_of(init, cipher, v)[k] == ws[i];
        assert(bucket_of(ws, cipher, v)[k] == ws[i]);
    } else {
        let b = bucket_of(ws, cipher, v);
        assert(b[b.len() - 1] == ws[i]);
    }
}

/// Under every cipher, the sizes of the non-empty buckets, each value counted once, add up
/// to the number of indexed words, which `word_count` returns: each word lies in exactly
/// one bucket per cipher.
pub proof fn law_bucket_sizes_add_up(ws: Seq<Seq<char>>, cipher: Cipher, keys: Seq<u64>)
    requires
        keys.no_duplicates(),
        forall|v: u64| bucket_of(ws, cipher, v).len() > 0 ==> #[trigger] keys.contains(v),
    ensures
        bucket_total(ws, cipher, keys) == ws.len(),
{
    assert forall|i: int| 0 <= i < ws.len() implies keys.contains(
        gematria_value(cipher, #[trigger] ws[i]),
    ) by {
        law_bucket_complete(ws, cipher, i);
    }
    law_bucket_total_counts_words(ws, cipher, keys);
}

/// The words of the buckets of the keys in `keys`, under `cipher`, put together with their
/// multiplicities.
pub open spec fn bucket_union(ws: Seq<Seq<char>>, cipher: Cipher, keys: Seq<u64>) -> Multiset<
    Seq<char>,
>
    decreases keys.len(),
{
    if keys.len() == 0 {
        Multiset::empty()
    } else {
        bucket_union(ws, cipher, keys.drop_last()).add(
            bucket_of(ws, cipher, keys.last()).to_multiset(),
        )
    }
}

proof fn lemma_bucket_union_empty(cipher: Cipher, keys: Seq<u64>)
    ensures
        bucket_union(Seq::empty(), cipher, keys) =~= Multiset::empty(),
    decreases keys.len(),
{
    broadcast use vstd::multiset::group_multiset_axioms;
    broadcast use vstd::seq_lib::group_to_multiset_ensures;

    if keys.len() > 0 {
        lemma_bucket_union_empty(cipher, keys.drop_last());
        assert(bucket_of(Seq::<Seq<char>>::empty(), cipher, keys.last()) =~= Seq::<
            Seq<char>,
        >::empty());
        assert(Seq::<Seq<char>>::empty().to_multiset().len() == 0);
    }
}

proof fn lemma_bucket_union_push(ws: Seq<Seq<char>>, w: Seq<char>, cipher: Cipher, keys: Seq<u64>)
    requires
        keys.no_duplicates(),
    ensures
        bucket_union(ws.push(w), cipher, keys) =~= if keys.contains(gematria_value(cipher, w)) {
            bucket_union(ws, cipher, keys).insert(w)
        } else {
            bucket_union(ws, cipher, keys)
        },
    decreases keys.len(),
{
    broadcast use vstd::multiset::group_multiset_axioms;
    broadcast use vstd::seq_lib::group_to_multiset_ensures;

    assert(ws.push(w).drop_last() == ws);
    if keys.len() > 0 {
        let init = keys.drop_last();
        let k = keys.last();
        let v = gematria_value(cipher, w);
        assert(init.no_duplicates());
        lemma_bucket_union_push(ws, w, cipher, init);
        if k == v {
            assert(!init.contains(v));
            assert(keys[keys.len() - 1] == v);
        } else {
            if keys.contains(v) {
                let j = choose|j: int| 0 <= j < keys.len() && keys[j] == v;
                assert(init[j] == v);
            }
            if init.contains(v) {
                let j = choose|j: int| 0 <= j < init.len() && init[j] == v;
                assert(keys[j] == v);
            }
        }
    }
}

/// Under every cipher, the buckets of keys that hold each value once, put together, hold
/// exactly the indexed words, each as often as it was indexed.
pub proof fn law_buckets_hold_the_words(ws: Seq<Seq<char>>, cipher: Cipher, keys: Seq<u64>)
    requires
        keys.no_duplicates(),
        forall|v: u64| bucket_of(ws, cipher, v).len() > 0 ==> #[trigger] keys.contains(v),
    ensures
        bucket_union(ws, cipher, keys) == ws.to_multiset(),
    decreases ws.len(),
{
    broadcast use vstd::multiset::group_multiset_axioms;
    broadcast use vstd::seq_lib::group_to_multiset_ensures;

    if ws.len() == 0 {
        lemma_bucket_union_empty(cipher, keys);
        assert(ws == Seq::<Seq<char>>::empty());
        assert(ws.to_multiset().len() == 0);
    } else {
        let init = ws.drop_last();
        let w = ws.last();
        assert(init.push(w) == ws);
        assert forall|v: u64| bucket_of(init, cipher, v).len() > 0 implies #[trigger] keys.contains(
            v,
        ) by {
            if gematria_value(cipher, w) == v {
                assert(bucket_of(ws, cipher, v) == bucket_of(init, cipher, v).push(w));
            }
        }
        law_buckets_hold_the_words(init, cipher, keys);
        lemma_bucket_union_push(init, w, cipher, keys);
        law_bucket_complete(ws, cipher, ws.len() - 1);
        assert(keys.contains(gematria_value(cipher, w)));
    }
}

/// The buckets of any two ciphers, put together, hold the same words: every indexed word
/// lies in exactly one bucket per cipher.
pub proof fn law_bucket_unions_agree(
    ws: Seq<Seq<char>>,
    c1: Cipher,
    keys1: Seq<u64>,
    c2: Cipher,
    keys2: Seq<u64>,
)
    requires
        keys1.no_duplicates(),
        keys2.no_duplicates(),
        forall|v: u64| bucket_of(ws, c1, v).len() > 0 ==> #[trigger] keys1.contains(v),
        forall|v: u64| bucket_of(ws, c2, v).len() > 0 ==> #[trigger] keys2.contains(v),
    ensures
        bucket_union(ws, c1, keys1) == bucket_union(ws, c2, keys2),
{
    law_buckets_hold_the_words(ws, c1, keys1);
    law_buckets_hold_the_words(ws, c2, keys2);
}

impl Matrix {
    /// Builds the index from the words of all four languages: every word joins, under each
    /// cipher, the bucket of its value.
    pub fn build() -> (m: Matrix)
        ensures
            m.indexed() == indexed_words(),
    {
        let mut english: HashMap<u64, Vec<String>> = HashMap::new();
        let mut jewish: HashMap<u64, Vec<String>> = HashMap::new();
        let mut simple: HashMap<u64, Vec<String>> = HashMap::new();
        let mut mystery: HashMap<u64, Vec<String>> = HashMap::new();
        let mut majestic: HashMap<u64, Vec<String>> = HashMap::new();
        let mut eights: HashMap<u64, Vec<String>> = HashMap::new();
        let words = all_words();
        let ghost all = words.deep_view();
        proof {
            assert(all.take(0) =~= Seq::<Seq<char>>::empty());
        }
        for i in 0..words.len()
            invariant
                all == words.deep_view(),
                all == combined_words(),
                indexes(english@, all.take(i as int), Cipher::English),
                indexes(jewish@, all.take(i as int), Cipher::Jewish),
                indexes(simple@, all.take(i as int), Cipher::Simple),
                indexes(mystery@, all.take(i as int), Cipher::Mystery),
                indexes(majestic@, all.take(i as int), Cipher::Majestic),
                indexes(eights@, all.take(i as int), Cipher::Eights),
        {
            let word = words[i];
            let ghost seen = all.take(i as int);
            proof {
                assert(all.take(i + 1).drop_last() == all.take(i as int));
                assert(all.take(i + 1).last() == word@);
                assert(all.take(i + 1) =~= seen.push(word@));
            }
            let g = calculate(word);
            let ghost (e0, j0, s0, y0, a0, h0) = (english@, jewish@, simple@, mystery@, majestic@, eights@);
            add_word(&mut english, g.english, word);
            add_word(&mut jewish, g.jewish, word);
            add_word(&mut simple, g.simple, word);
            add_word(&mut mystery, g.mystery, word);
            add_word(&mut majestic, g.majestic, word);
            add_word(&mut eights, g.eights, word);
            proof {
                assert(g.value_of(Cipher::English) == gematria_value(Cipher::English, word@));
                assert(g.value_of(Cipher::Jewish) == gematria_value(Cipher::Jewish, word@));
                assert(g.value_of(Cipher::Simple) == gematria_value(Cipher::Simple, word@));
                assert(g.value_of(Cipher::Mystery) == gematria_value(Cipher::Mystery, word@));
                assert(g.value_of(Cipher::Majestic) == gematria_value(Cipher::Majestic, word@));
                assert(g.value_of(Cipher::Eights) == gematria_value(Cipher::Eights, word@));
                lemma_indexes_push(e0, english@, seen, word@, Cipher::English);
                lemma_indexes_push(j0, jewish@, seen, word@, Cipher::Jewish);
                lemma_indexes_push(s0, simple@, seen, word@, Cipher::Simple);
                lemma_indexes_push(y0, mystery@, seen, word@, Cipher::Mystery);
                lemma_indexes_push(a0, majestic@, seen, word@, Cipher::Majestic);
                lemma_indexes_push(h0, eights@, seen, word@, Cipher::Eights);
            }
        }
        proof {
            assert(all.take(all.len() as int) == all);
        }
        let m = Matrix {
            english,
            jewish,
            simple,
            mystery,
            majestic,
            eights,
            words: Ghost(all),
        };
        assert forall|c: Cipher| #[trigger] indexes(m.table(c), all, c) by {
            match c {
                Cipher::English => {},
                Cipher::Jewish => {},
                Cipher::Simple => {},
                Cipher::Mystery => {},
                Cipher::Majestic => {},
                Cipher::Eights => {},
            }
        }
        m
    }

    fn table_of(&self, cipher: &Cipher) -> (t: &HashMap<u64, Vec<String>>)
        ensures
            t@ == self.table(*cipher),
    {
        match cipher {
            Cipher::English => &self.english,
            Cipher::Jewish => &self.jewish,
            Cipher::Simple => &self.simple,
            Cipher::Mystery => &self.mystery,
            Cipher::Majestic => &self.majestic,
            Cipher::Eights => &self.eights,
        }
    }

    /// The words whose value under `cipher` is `value`, in the order they were indexed;
    /// empty when there are none.
    pub fn lookup(&self, cipher: &Cipher, value: u64) -> (r: &[String])
        ensures
            r.deep_view() == bucket_of(self.indexed(), *cipher, value),
    {
        proof {
            use_type_invariant(self);
        }
        let table = self.table_of(cipher);
        proof {
            assert(indexes(self.table(*cipher), self.words@, *cipher));
        }
        match table.get(&value) {
            Some(v) => v.as_slice(),
            None => {
                let empty: &[String] = &[];
                assert(empty.deep_view() =~= bucket_of(self.indexed(), *cipher, value));
                empty
            },
        }
    }

    /// Number of indexed words: the sizes of the English buckets added up.
    pub fn word_count(&self) -> (n: usize)
        ensures
            n == self.indexed().len(),
    {
        proof {
            use_type_invariant(self);
            assert(indexes(self.table(Cipher::English), self.words@, Cipher::English));
        }
        let ghost ws = self.words@;
        let ghost keys = vstd::std_specs::iter::IteratorSpec::remaining(&vstd::std_specs::hash::spec_keys_iter(&self.english)).unref();
        proof {
            assert forall|i: int| 0 <= i < ws.len() implies keys.contains(
                gematria_value(Cipher::English, #[trigger] ws[i]),
            ) by {
                law_bucket_complete(ws, Cipher::English, i);
                assert(self.english@.dom().contains(gematria_value(Cipher::English, ws[i])));
                assert(keys.to_set().contains(gematria_value(Cipher::English, ws[i])));
            }
            law_bucket_total_counts_words(ws, Cipher::English, keys);
        }
        let mut total: usize = 0;
        for k in it: self.english.keys()
            invariant
                it.seq().unref() == keys,
                keys.to_set() == self.english@.dom(),
                bucket_total(ws, Cipher::English, keys) == ws.len(),
                ws.len() <= usize::MAX,
                indexes(self.english@, ws, Cipher::English),
                total == bucket_total(ws, Cipher::English, keys.take(it.index())),
        {
            let ghost i = it.index();
            proof {
                assert(keys[i] == *k);
                assert(keys.to_set().contains(*k));
                assert(keys.take(i + 1).drop_last() == keys.take(i));
                lemma_bucket_total_prefix(ws, Cipher::English, keys, i + 1);
            }
            let size = match self.english.get(k) {
                Some(bucket) => bucket.len(),
                None => 0,
            };
            proof {
                assert(self.english@[*k].deep_view().len() == self.english@[*k]@.len());
            }
            total = total + size;
        }
        proof {
            assert(keys.take(keys.len() as int) == keys);
        }
        total
    }
}

} // verus!
