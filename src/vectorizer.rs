//! Tokenization, vocabulary building and term-frequency vectors.
use vstd::prelude::*;
use vstd::std_specs::iter::IteratorSpec;
use vstd::utf8::encode_utf8;
use rayon::slice::ParallelSliceMut;
use crate::document::Document;
use crate::similarity::SCALE;

verus! {

broadcast use vstd::string::axiom_spec_iter, vstd::string::next_postcondition;

/// What `str::to_lowercase` returns for a string.
pub uninterp spec fn lower_of(s: Seq<char>) -> Seq<char>;

/// Whether `char::is_alphanumeric` holds of a character.
pub uninterp spec fn alphanumeric(c: char) -> bool;

/// Relies on `str::to_lowercase`: the result depends on the characters alone.
#[verifier::external_body]
fn lowercase(s: &str) -> (r: String)
    ensures
        r@ == lower_of(s@),
{
    s.to_lowercase()
}

/// Relies on `char::is_alphanumeric`.
#[verifier::external_body]
fn is_alphanumeric(c: char) -> (r: bool)
    ensures
        r == alphanumeric(c),
{
    c.is_alphanumeric()
}

/// The SeaHash digest of a byte string.
pub uninterp spec fn seahash_of(b: Seq<u8>) -> u64;

/// Relies on `seahash::hash`: a digest with a fixed seed, a function of the bytes alone.
#[verifier::external_body]
fn text_hash(b: &[u8]) -> (r: u64)
    ensures
        r == seahash_of(b@),
{
    seahash::hash(b)
}

/// Relies on `String::push`: appends one character.
#[verifier::external_body]
fn push_char(s: &mut String, c: char)
    ensures
        final(s)@ == old(s)@.push(c),
{
    s.push(c)
}

/// The finished word, if any.
pub open spec fn flush(cur: Seq<char>) -> Seq<Seq<char>> {
    if cur.len() > 0 {
        seq![cur]
    } else {
        seq![]
    }
}

/// Splits `s` into the maximal runs of alphanumeric characters, `cur`
/// being the run already begun.
pub open spec fn split_words(s: Seq<char>, cur: Seq<char>) -> Seq<Seq<char>>
    decreases s.len(),
{
    if s.len() == 0 {
        flush(cur)
    } else if alphanumeric(s[0]) {
        split_words(s.drop_first(), cur.push(s[0]))
    } else {
        flush(cur) + split_words(s.drop_first(), seq![])
    }
}

/// The tokens of a text: the maximal alphanumeric runs of its lowercase form.
pub open spec fn tokens_of(text: Seq<char>) -> Seq<Seq<char>> {
    split_words(lower_of(text), seq![])
}

pub open spec fn strings_view(v: Seq<String>) -> Seq<Seq<char>> {
    v.map_values(|s: String| s@)
}

/// The TF vector of one document over a tier's vocabulary, with a digest
/// of the document's text.
pub struct TextFeatures {
    pub filename: String,
    pub tfidf_vector: Vec<u64>,
    pub dom_tree_hash: u64,
}

/// Splits a text into lowercase alphanumeric tokens, dropping empty ones.
pub fn tokenize(text: &str) -> (r: Vec<String>)
    ensures
        strings_view(r@) == tokens_of(text@),
{
    let lowered = lowercase(text);
    split_alphanumeric(lowered.as_str())
}

/// Splits a text into its maximal runs of alphanumeric characters.
pub fn split_alphanumeric(lowered: &str) -> (r: Vec<String>)
    ensures
        strings_view(r@) == split_words(lowered@, seq![]),
{
    let ghost whole = lowered@;
    let mut out: Vec<String> = Vec::new();
    let mut cur = String::new();
    let mut started: bool = false;
    let mut it = lowered.chars();
    loop
        invariant
            whole == lowered@,
            started == (cur@.len() > 0),
            split_words(whole, seq![]) == strings_view(out@) + split_words(it.remaining(), cur@),
            it.decrease() is Some,
        ensures
            whole == lowered@,
            started == (cur@.len() > 0),
            split_words(whole, seq![]) == strings_view(out@) + flush(cur@),
        decreases it.decrease()->0,
    {
        let ghost rest = it.remaining();
        match it.next() {
            None => {
                assert(rest.len() == 0);
                assert(split_words(rest, cur@) == flush(cur@));
                break;
            },
            Some(c) => {
                assert(rest.len() > 0 && c == rest[0] && it.remaining() == rest.drop_first());
                if is_alphanumeric(c) {
                    push_char(&mut cur, c);
                    started = true;
                } else {
                    let ghost before = strings_view(out@);
                    if started {
                        out.push(cur);
                        assert(strings_view(out@) =~= before + flush(cur@));
                    } else {
                        assert(strings_view(out@) =~= before + flush(cur@));
                    }
                    cur = String::new();
                    started = false;
                }
            },
        }
    }
    let ghost before = strings_view(out@);
    if started {
        out.push(cur);
        assert(strings_view(out@) =~= before + flush(cur@));
    } else {
        assert(strings_view(out@) =~= before + flush(cur@));
    }
    assert(strings_view(out@) =~= split_words(whole, seq![]));
    out
}

/// Lexicographic order on character sequences, comparing code points.
pub open spec fn lex_le(a: Seq<char>, b: Seq<char>) -> bool
    decreases a.len(),
{
    if a.len() == 0 {
        true
    } else if b.len() == 0 {
        false
    } else if (a[0] as u32) < (b[0] as u32) {
        true
    } else if a[0] == b[0] {
        lex_le(a.drop_first(), b.drop_first())
    } else {
        false
    }
}

proof fn lemma_lex_antisymmetric(a: Seq<char>, b: Seq<char>)
    requires
        lex_le(a, b),
        lex_le(b, a),
    ensures
        a == b,
    decreases a.len(),
{
    if a.len() > 0 {
        assert(b.len() > 0);
        assert(a[0] == b[0]) by {
            assert(a[0] as u32 == b[0] as u32);
        }
        lemma_lex_antisymmetric(a.drop_first(), b.drop_first());
        assert(a =~= seq![a[0]] + a.drop_first());
        assert(b =~= seq![b[0]] + b.drop_first());
    } else {
        assert(b.len() == 0);
        assert(a =~= b);
    }
}

/// Relies on rayon's `par_sort_unstable`: it permutes the strings into
/// ascending order of `String`'s `Ord`, which compares UTF-8 bytes and so
/// orders by code points.
#[verifier::external_body]
fn sort_strings(v: &mut Vec<String>)
    ensures
        final(v)@.to_multiset() == old(v)@.to_multiset(),
        forall|i: int, j: int|
            0 <= i < j < final(v)@.len() ==> lex_le(final(v)@[i]@, final(v)@[j]@),
{
    v.par_sort_unstable();
}

/// The stop-word list that `stop_words::lookup` gives for a language code,
/// empty where the crate holds none.
pub uninterp spec fn stop_words_of(code: Seq<char>) -> Seq<Seq<char>>;

/// Relies on `stop_words::lookup`: a fixed list per language code, or none.
#[verifier::external_body]
fn stop_words_for(code: &str) -> (r: Vec<String>)
    ensures
        strings_view(r@) == stop_words_of(code@),
{
    let words: &[&str] = stop_words::lookup(code).unwrap_or(&[]);
    words.iter().map(|w| w.to_string()).collect()
}

/// Whether `w` is one of `list`.
fn contains_word(list: &Vec<String>, w: &String) -> (r: bool)
    ensures
        r == strings_view(list@).contains(w@),
{
    let mut i: usize = 0;
    while i < list.len()
        invariant
            0 <= i <= list@.len(),
            forall|k: int| 0 <= k < i ==> list@[k]@ != w@,
        decreases list@.len() - i,
    {
        if list[i] == *w {
            assert(strings_view(list@)[i as int] == w@);
            return true;
        }
        i = i + 1;
    }
    assert(!strings_view(list@).contains(w@)) by {
        if strings_view(list@).contains(w@) {
            let k = choose|k: int| 0 <= k < list@.len() && strings_view(list@)[k] == w@;
            assert(list@[k]@ == w@);
        }
    }
    false
}

/// `w` is a token of one of the first `n` documents.
pub open spec fn token_of_docs(docs: Seq<Document>, n: int, w: Seq<char>) -> bool {
    exists|d: int| 0 <= d < n && #[trigger] tokens_of(docs[d].text@).contains(w)
}

proof fn lemma_contains_push<A>(s: Seq<A>, x: A, w: A)
    ensures
        s.push(x).contains(w) <==> (s.contains(w) || w == x),
{
    if s.push(x).contains(w) {
        let k = choose|k: int| 0 <= k < s.len() + 1 && #[trigger] s.push(x)[k] == w;
        if k < s.len() {
            assert(s[k] == w);
        }
    }
    if s.contains(w) {
        let k = choose|k: int| 0 <= k < s.len() && #[trigger] s[k] == w;
        assert(s.push(x)[k] == w);
    }
    if w == x {
        assert(s.push(x)[s.len() as int] == w);
    }
}

proof fn lemma_token_of_docs_step(docs: Seq<Document>, i: int, w: Seq<char>)
    requires
        0 <= i < docs.len(),
    ensures
        token_of_docs(docs, i + 1, w) <==> (token_of_docs(docs, i, w) || tokens_of(
            docs[i].text@,
        ).contains(w)),
{
    if token_of_docs(docs, i + 1, w) && !token_of_docs(docs, i, w) {
        let d = choose|d: int| 0 <= d < i + 1 && #[trigger] tokens_of(docs[d].text@).contains(w);
        assert(d == i);
    }
}

/// `w` belongs to the vocabulary of `docs`: a token of some document and
/// not a stop word.
pub open spec fn in_vocabulary(docs: Seq<Document>, stop_words: Seq<Seq<char>>, w: Seq<char>) -> bool {
    token_of_docs(docs, docs.len() as int, w) && !stop_words.contains(w)
}

/// Sorted without repeats: every earlier word is strictly below every later one.
pub open spec fn strictly_sorted(v: Seq<Seq<char>>) -> bool {
    forall|i: int, j: int| 0 <= i < j < v.len() ==> lex_le(v[i], v[j]) && v[i] != v[j]
}

/// `v` is the vocabulary of `docs` under `stop_words`: strictly sorted, and
/// holding exactly the words that belong to it.
pub open spec fn is_vocabulary(docs: Seq<Document>, stop_words: Seq<Seq<char>>, v: Seq<Seq<char>>) -> bool {
    &&& strictly_sorted(v)
    &&& forall|w: Seq<char>| v.contains(w) <==> in_vocabulary(docs, stop_words, w)
}

proof fn lemma_drop_first_contains(v: Seq<Seq<char>>, w: Seq<char>)
    requires
        v.len() > 0,
        strictly_sorted(v),
    ensures
        v.drop_first().contains(w) <==> (v.contains(w) && w != v[0]),
{
    if v.drop_first().contains(w) {
        let k = choose|k: int| 0 <= k < v.len() - 1 && #[trigger] v.drop_first()[k] == w;
        assert(v[k + 1] == w);
        assert(0 < k + 1 < v.len());
        assert(lex_le(v[0], v[k + 1]) && v[0] != v[k + 1]);
    }
    if v.contains(w) && w != v[0] {
        let k = choose|k: int| 0 <= k < v.len() && #[trigger] v[k] == w;
        assert(v.drop_first()[k - 1] == w);
    }
}

/// Two strictly sorted sequences holding the same words are equal.
pub proof fn lemma_sorted_same_words(v1: Seq<Seq<char>>, v2: Seq<Seq<char>>)
    requires
        strictly_sorted(v1),
        strictly_sorted(v2),
        forall|w: Seq<char>| v1.contains(w) <==> v2.contains(w),
    ensures
        v1 == v2,
    decreases v1.len(),
{
    if v1.len() == 0 {
        if v2.len() > 0 {
            assert(v2.contains(v2[0]));
        }
        assert(v1 =~= v2);
    } else {
        assert(v1.contains(v1[0]));
        let j = choose|j: int| 0 <= j < v2.len() && v2[j] == v1[0];
        assert(v2.contains(v2[0]));
        let i = choose|i: int| 0 <= i < v1.len() && v1[i] == v2[0];
        if j > 0 {
            assert(lex_le(v2[0], v2[j]));
        } else {
            lemma_lex_reflexive(v2[0]);
        }
        if i > 0 {
            assert(lex_le(v1[0], v1[i]));
        } else {
            lemma_lex_reflexive(v1[0]);
        }
        lemma_lex_antisymmetric(v1[0], v2[0]);
        let r1 = v1.drop_first();
        let r2 = v2.drop_first();
        assert forall|w: Seq<char>| r1.contains(w) <==> r2.contains(w) by {
            lemma_drop_first_contains(v1, w);
            lemma_drop_first_contains(v2, w);
        }
        assert(strictly_sorted(r1)) by {
            assert forall|a: int, b: int| 0 <= a < b < r1.len() implies lex_le(r1[a], r1[b]) && r1[a] != r1[b] by {
                assert(r1[a] == v1[a + 1] && r1[b] == v1[b + 1]);
            }
        }
        assert(strictly_sorted(r2)) by {
            assert forall|a: int, b: int| 0 <= a < b < r2.len() implies lex_le(r2[a], r2[b]) && r2[a] != r2[b] by {
                assert(r2[a] == v2[a + 1] && r2[b] == v2[b + 1]);
            }
        }
        lemma_sorted_same_words(r1, r2);
        assert(v1 =~= seq![v1[0]] + r1);
        assert(v2 =~= seq![v2[0]] + r2);
    }
}

proof fn lemma_lex_reflexive(a: Seq<char>)
    ensures
        lex_le(a, a),
    decreases a.len(),
{
    if a.len() > 0 {
        lemma_lex_reflexive(a.drop_first());
    }
}

/// A document set has one vocabulary under a given stop-word list: equal
/// documents, in any order, give the same vocabulary.
pub proof fn lemma_vocabulary_unique(
    docs: Seq<Document>,
    stop_words: Seq<Seq<char>>,
    v1: Seq<Seq<char>>,
    v2: Seq<Seq<char>>,
)
    requires
        is_vocabulary(docs, stop_words, v1),
        is_vocabulary(docs, stop_words, v2),
    ensures
        v1 == v2,
{
    lemma_sorted_same_words(v1, v2);
}

/// The vocabulary of a tier given its stop words: every token of every
/// document that is not a stop word, once each, in lexicographic order.
pub fn build_vocabulary_with(docs: &Vec<Document>, stop_words: &Vec<String>) -> (r: Vec<String>)
    ensures
        is_vocabulary(docs@, strings_view(stop_words@), strings_view(r@)),
{
    let ghost stops = strings_view(stop_words@);
    let mut all: Vec<String> = Vec::new();
    let mut i: usize = 0;
    while i < docs.len()
        invariant
            0 <= i <= docs@.len(),
            stops == strings_view(stop_words@),
            forall|w: Seq<char>|
                #[trigger] strings_view(all@).contains(w) <==> (token_of_docs(docs@, i as int, w)
                    && !stops.contains(w)),
        decreases docs@.len() - i,
    {
        let toks = tokenize(&docs[i].text);
        let ghost tv = strings_view(toks@);
        let mut j: usize = 0;
        assert forall|w: Seq<char>| #[trigger] strings_view(all@).contains(w) <==> ((token_of_docs(docs@, i as int, w)
                        || tv.subrange(0, 0).contains(w)) && !stops.contains(w)) by {
            assert(!tv.subrange(0, 0).contains(w));
        }
        while j < toks.len()
            invariant
                0 <= i < docs@.len(),
                0 <= j <= toks@.len(),
                stops == strings_view(stop_words@),
                tv == strings_view(toks@),
                tv == tokens_of(docs@[i as int].text@),
                forall|w: Seq<char>|
                    #[trigger] strings_view(all@).contains(w) <==> ((token_of_docs(docs@, i as int, w)
                        || tv.subrange(0, j as int).contains(w)) && !stops.contains(w)),
            decreases toks@.len() - j,
        {
            let t = &toks[j];
            let keep = !contains_word(stop_words, t);
            let ghost before = strings_view(all@);
            if keep {
                all.push(t.clone());
                assert(strings_view(all@) =~= before.push(t@));
            }
            proof {
                assert(tv.subrange(0, j + 1) =~= tv.subrange(0, j as int).push(t@));
                assert forall|w: Seq<char>|
                    #[trigger] strings_view(all@).contains(w) <==> ((token_of_docs(docs@, i as int, w)
                        || tv.subrange(0, j + 1).contains(w)) && !stops.contains(w)) by {
                    lemma_contains_push(before, t@, w);
                    lemma_contains_push(tv.subrange(0, j as int), t@, w);
                    assert(before.contains(w) <==> ((token_of_docs(docs@, i as int, w)
                        || tv.subrange(0, j as int).contains(w)) && !stops.contains(w)));
                    if keep {
                        assert(strings_view(all@) == before.push(t@));
                    } else {
                        assert(strings_view(all@) == before);
                        assert(stops.contains(t@));
                    }
                }
            }
            j = j + 1;
        }
        proof {
            assert(tv.subrange(0, j as int) =~= tv);
            assert forall|w: Seq<char>|
                strings_view(all@).contains(w) <==> (token_of_docs(docs@, i + 1, w)
                    && !stops.contains(w)) by {
                lemma_token_of_docs_step(docs@, i as int, w);
                assert(strings_view(all@).contains(w) <==> ((token_of_docs(docs@, i as int, w)
                        || tv.subrange(0, j as int).contains(w)) && !stops.contains(w)));
            }
        }
        i = i + 1;
    }
    let ghost unsorted = all@;
    sort_strings(&mut all);
    proof {
        broadcast use vstd::seq_lib::group_to_multiset_ensures;
        assert forall|w: Seq<char>| #[trigger] strings_view(all@).contains(w) <==> strings_view(unsorted).contains(w) by {
            if strings_view(all@).contains(w) {
                let k = choose|k: int| 0 <= k < all@.len() && strings_view(all@)[k] == w;
                assert(all@.contains(all@[k]));
                assert(all@.to_multiset().count(all@[k]) > 0);
                assert(unsorted.contains(all@[k]));
                let k2 = choose|k2: int| 0 <= k2 < unsorted.len() && unsorted[k2] == all@[k];
                assert(strings_view(unsorted)[k2] == w);
            }
            if strings_view(unsorted).contains(w) {
                let k = choose|k: int| 0 <= k < unsorted.len() && strings_view(unsorted)[k] == w;
                assert(unsorted.contains(unsorted[k]));
                assert(unsorted.to_multiset().count(unsorted[k]) > 0);
                assert(all@.contains(unsorted[k]));
                let k2 = choose|k2: int| 0 <= k2 < all@.len() && all@[k2] == unsorted[k];
                assert(strings_view(all@)[k2] == w);
            }
        }
    }
    let ghost sorted = strings_view(all@);
    let mut out: Vec<String> = Vec::new();
    let mut k: usize = 0;
    while k < all.len()
        invariant
            0 <= k <= all@.len(),
            sorted == strings_view(all@),
            forall|a: int, b: int| 0 <= a < b < sorted.len() ==> lex_le(sorted[a], sorted[b]),
            strictly_sorted(strings_view(out@)),
            k > 0 ==> out@.len() > 0 && out@.last()@ == sorted[k - 1],
            k == 0 ==> out@.len() == 0,
            forall|w: Seq<char>| #[trigger] strings_view(out@).contains(w) <==> sorted.subrange(0, k as int).contains(w),
        decreases all@.len() - k,
    {
        let ghost before = strings_view(out@);
        let fresh = if k == 0 {
            true
        } else {
            !(all[k] == out[out.len() - 1])
        };
        if fresh {
            proof {
                assert forall|a: int| 0 <= a < before.len() implies lex_le(before[a], sorted[k as int])
                    && before[a] != sorted[k as int] by {
                    assert(before.contains(before[a]));
                    assert(sorted.subrange(0, k as int).contains(before[a]));
                    let p = choose|p: int| 0 <= p < k && #[trigger] sorted.subrange(0, k as int)[p] == before[a];
                    assert(sorted[p] == before[a]);
                    if before[a] == sorted[k as int] {
                        if p < k - 1 {
                            assert(lex_le(sorted[p], sorted[k - 1]));
                        }
                        assert(lex_le(sorted[k - 1], sorted[k as int]));
                        lemma_lex_antisymmetric(sorted[k - 1], sorted[k as int]);
                    }
                }
            }
            out.push(all[k].clone());
            assert(strings_view(out@) =~= before.push(sorted[k as int]));
        }
        proof {
            assert(sorted.subrange(0, k + 1) =~= sorted.subrange(0, k as int).push(sorted[k as int]));
            assert forall|w: Seq<char>| strings_view(out@).contains(w) <==> sorted.subrange(0, k + 1).contains(w) by {
                lemma_contains_push(sorted.subrange(0, k as int), sorted[k as int], w);
                if fresh {
                    lemma_contains_push(before, sorted[k as int], w);
                } else {
                    assert(strings_view(out@) == before);
                    assert(before[before.len() - 1] == sorted[k as int]);
                    assert(before.contains(sorted[k as int]));
                }
            }
        }
        k = k + 1;
    }
    assert(sorted.subrange(0, k as int) =~= sorted);
    assert forall|w: Seq<char>| strings_view(out@).contains(w) <==> in_vocabulary(docs@, stops, w) by {
        assert(strings_view(out@).contains(w) <==> sorted.subrange(0, k as int).contains(w));
        assert(sorted.contains(w) <==> strings_view(unsorted).contains(w));
        assert(strings_view(unsorted).contains(w) <==> (token_of_docs(docs@, docs@.len() as int, w)
                    && !stops.contains(w)));
    }
    out
}

/// The English stop-word list.
pub open spec fn english_stop_words() -> Seq<Seq<char>> {
    stop_words_of("en"@)
}

/// The vocabulary of a tier: every token of its documents that is not an
/// English stop word, once each, in lexicographic order.
pub fn build_vocabulary(docs: &Vec<Document>) -> (r: Vec<String>)
    ensures
        is_vocabulary(docs@, english_stop_words(), strings_view(r@)),
{
    let stops = stop_words_for("en");
    build_vocabulary_with(docs, &stops)
}

/// How many of the first `n` tokens equal `w`.
pub open spec fn term_count(tokens: Seq<Seq<char>>, w: Seq<char>, n: int) -> int
    decreases n,
{
    if n <= 0 {
        0
    } else {
        term_count(tokens, w, n - 1) + (if tokens[n - 1] == w { 1int } else { 0 })
    }
}

/// The term-frequency vector: for each vocabulary word in order, its count
/// over the number of tokens, in fixed point and rounded down; all zero for
/// a text without tokens.
pub open spec fn tf_spec(tokens: Seq<Seq<char>>, vocab: Seq<Seq<char>>) -> Seq<u64> {
    Seq::new(
        vocab.len(),
        |k: int|
            if tokens.len() == 0 {
                0u64
            } else {
                (term_count(tokens, vocab[k], tokens.len() as int) * SCALE / (tokens.len() as int)) as u64
            },
    )
}

proof fn lemma_term_count_bound(tokens: Seq<Seq<char>>, w: Seq<char>, n: int)
    requires
        n >= 0,
    ensures
        0 <= term_count(tokens, w, n) <= n,
    decreases n,
{
    if n > 0 {
        lemma_term_count_bound(tokens, w, n - 1);
    }
}

/// The term-frequency vector of a token sequence over a vocabulary.
pub fn compute_tfidf(tokens: &Vec<String>, vocab: &Vec<String>) -> (r: Vec<u64>)
    ensures
        r@ == tf_spec(strings_view(tokens@), strings_view(vocab@)),
        forall|k: int| 0 <= k < r@.len() ==> r@[k] <= SCALE,
{
    let ghost tv = strings_view(tokens@);
    let total: usize = tokens.len();
    let mut r: Vec<u64> = Vec::new();
    let mut k: usize = 0;
    while k < vocab.len()
        invariant
            tv == strings_view(tokens@),
            total == tokens@.len(),
            0 <= k <= vocab@.len(),
            r@ == tf_spec(tv, strings_view(vocab@)).subrange(0, k as int),
            forall|q: int| 0 <= q < r@.len() ==> r@[q] <= SCALE,
        decreases vocab@.len() - k,
    {
        let w = &vocab[k];
        let mut count: usize = 0;
        let mut i: usize = 0;
        while i < total
            invariant
                tv == strings_view(tokens@),
                total == tokens@.len(),
                0 <= i <= total,
                count == term_count(tv, w@, i as int),
            decreases total - i,
        {
            proof {
                lemma_term_count_bound(tv, w@, i as int);
            }
            if tokens[i] == *w {
                count = count + 1;
            }
            i = i + 1;
        }
        proof {
            lemma_term_count_bound(tv, w@, total as int);
        }
        let v: u64 = if total == 0 {
            0
        } else {
            assert(count * SCALE <= u64::MAX * SCALE) by (nonlinear_arith)
                requires
                    count <= u64::MAX,
            ;
            assert(count * SCALE / (total as int) <= SCALE) by (nonlinear_arith)
                requires
                    count <= total,
                    total > 0,
            ;
            ((count as u128) * (SCALE as u128) / (total as u128)) as u64
        };
        r.push(v);
        k = k + 1;
        assert(r@ =~= tf_spec(tv, strings_view(vocab@)).subrange(0, k as int));
    }
    assert(r@ =~= tf_spec(tv, strings_view(vocab@)));
    r
}

impl TextFeatures {
    /// The TF vector of a document's text over a tier's vocabulary.
    pub fn from_document(doc: &Document, vocab: &Vec<String>) -> (r: TextFeatures)
        ensures
            r.filename@ == doc.filename@,
            r.tfidf_vector@ == tf_spec(tokens_of(doc.text@), strings_view(vocab@)),
            forall|k: int| 0 <= k < r.tfidf_vector@.len() ==> r.tfidf_vector@[k] <= SCALE,
            r.dom_tree_hash == seahash_of(encode_utf8(doc.text@)),
    {
        let tokens = tokenize(doc.text.as_str());
        let vector = compute_tfidf(&tokens, vocab);
        let dom_hash = text_hash(doc.text.as_str().as_bytes());
        TextFeatures { filename: doc.filename.clone(), tfidf_vector: vector, dom_tree_hash: dom_hash }
    }
}

} // verus!
