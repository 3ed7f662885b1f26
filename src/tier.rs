//! Processing of one tier: vocabulary, features, and clustering, with
//! documents whose screenshot could not be decoded set aside.
use vstd::prelude::*;
use crate::clustering::{
    cluster_documents, clusters_after, image_vectors, lemma_clusters_after_invariants,
    distinct_filenames, groups_partition_names, groups_view, is_doc_name, member_at, member_names,
    name_at, name_listed, names_view, partitions, shape_ok, text_vectors, valid_features, ClusterConfig,
    ClusterModel,
};
use crate::document::Document;
use crate::image_processor::{histogram_spec, ImageFeatures, BUCKETS};
use crate::similarity::{hist_vector, unit_vector, MAX_DIM};
use crate::vectorizer::{
    build_vocabulary, english_stop_words, is_vocabulary, lemma_vocabulary_unique, strings_view,
    tf_spec, tokens_of, TextFeatures,
};

verus! {

/// The outcome of one tier: the member filenames of each cluster, in
/// creation order, and the positions of the documents that were skipped.
pub struct TierResult {
    pub clusters: Vec<Vec<String>>,
    pub skipped: Vec<usize>,
}

/// Positions among the first `n` whose screenshot was decoded, in order.
pub open spec fn kept_positions(decoded: Seq<Option<Vec<u8>>>, n: int) -> Seq<usize>
    decreases n,
{
    if n <= 0 {
        seq![]
    } else {
        let prev = kept_positions(decoded, n - 1);
        if decoded[n - 1] is Some {
            prev.push((n - 1) as usize)
        } else {
            prev
        }
    }
}

/// Positions among the first `n` whose screenshot could not be decoded, in order.
pub open spec fn skipped_positions(decoded: Seq<Option<Vec<u8>>>, n: int) -> Seq<usize>
    decreases n,
{
    if n <= 0 {
        seq![]
    } else {
        let prev = skipped_positions(decoded, n - 1);
        if decoded[n - 1] is None {
            prev.push((n - 1) as usize)
        } else {
            prev
        }
    }
}

pub open spec fn tier_texts(docs: Seq<Document>, vocab: Seq<Seq<char>>, kept: Seq<usize>) -> Seq<Seq<u64>> {
    kept.map_values(|i: usize| tf_spec(tokens_of(docs[i as int].text@), vocab))
}

pub open spec fn tier_images(decoded: Seq<Option<Vec<u8>>>, kept: Seq<usize>) -> Seq<Seq<u64>> {
    kept.map_values(
        |i: usize| histogram_spec(decoded[i as int]->0@, decoded[i as int]->0@.len() as int / 3),
    )
}

/// The clusters of the decoded documents, over positions among them.
pub open spec fn tier_clusters(
    cfg: ClusterConfig,
    docs: Seq<Document>,
    vocab: Seq<Seq<char>>,
    decoded: Seq<Option<Vec<u8>>>,
) -> Seq<ClusterModel> {
    let kept = kept_positions(decoded, decoded.len() as int);
    clusters_after(cfg, tier_texts(docs, vocab, kept), tier_images(decoded, kept), kept.len() as int)
}

/// The filenames of cluster members given as positions among the kept documents.
pub open spec fn kept_names(docs: Seq<Document>, kept: Seq<usize>, members: Seq<usize>) -> Seq<Seq<char>> {
    members.map_values(|p: usize| docs[kept[p as int] as int].filename@)
}

/// Decoded screenshots are packed RGB samples.
pub open spec fn decoded_ok(decoded: Seq<Option<Vec<u8>>>) -> bool {
    forall|i: int| 0 <= i < decoded.len() ==> (#[trigger] decoded[i] matches Some(rgb) ==> rgb@.len() % 3 == 0)
}

/// `res` is the outcome of clustering the decoded documents of a tier over
/// vocabulary `vocab`, the others being skipped.
pub open spec fn outcome_matches(
    cfg: ClusterConfig,
    docs: Seq<Document>,
    vocab: Seq<Seq<char>>,
    decoded: Seq<Option<Vec<u8>>>,
    res: TierResult,
) -> bool {
    let kept = kept_positions(decoded, decoded.len() as int);
    let cs = tier_clusters(cfg, docs, vocab, decoded);
    &&& res.skipped@ == skipped_positions(decoded, decoded.len() as int)
    &&& res.clusters@.len() == cs.len()
    &&& forall|k: int|
        0 <= k < cs.len() ==> names_view(#[trigger] res.clusters@[k]) == kept_names(
            docs,
            kept,
            cs[k].members,
        )
}

/// Document `i` of the tier is member `p` of cluster `k`.
pub open spec fn doc_member_at(cs: Seq<ClusterModel>, kept: Seq<usize>, k: int, p: int, i: int) -> bool {
    &&& 0 <= k < cs.len()
    &&& 0 <= p < cs[k].members.len()
    &&& cs[k].members[p] < kept.len()
    &&& kept[cs[k].members[p] as int] == i
}

pub open spec fn doc_clustered(cs: Seq<ClusterModel>, kept: Seq<usize>, i: int) -> bool {
    exists|k: int, p: int| #[trigger] doc_member_at(cs, kept, k, p, i)
}

/// Each of the `n` documents is either skipped or clustered, never both;
/// a clustered one stands in exactly one cluster, once, and a skipped one
/// is recorded once.
pub open spec fn tier_partitioned(n: int, cs: Seq<ClusterModel>, kept: Seq<usize>, skipped: Seq<usize>) -> bool {
    &&& forall|i: int|
        0 <= i < n ==> (#[trigger] skipped.contains(i as usize) != doc_clustered(cs, kept, i))
    &&& forall|k1: int, p1: int, k2: int, p2: int, i: int|
        #[trigger] doc_member_at(cs, kept, k1, p1, i) && #[trigger] doc_member_at(cs, kept, k2, p2, i)
            ==> k1 == k2 && p1 == p2
    &&& forall|a: int, b: int|
        0 <= a < skipped.len() && 0 <= b < skipped.len() && #[trigger] skipped[a] == #[trigger] skipped[b]
            ==> a == b
}

pub open spec fn increasing_below(s: Seq<usize>, m: int) -> bool {
    &&& forall|a: int, b: int| 0 <= a < b < s.len() ==> #[trigger] s[a] < #[trigger] s[b]
    &&& forall|a: int| 0 <= a < s.len() ==> #[trigger] s[a] < m
}

proof fn lemma_positions(decoded: Seq<Option<Vec<u8>>>, m: int)
    requires
        0 <= m <= decoded.len(),
        decoded.len() <= usize::MAX,
    ensures
        increasing_below(kept_positions(decoded, m), m),
        increasing_below(skipped_positions(decoded, m), m),
        forall|i: int|
            0 <= i < m ==> (#[trigger] kept_positions(decoded, m).contains(i as usize) <==> decoded[i] is Some),
        forall|i: int|
            0 <= i < m ==> (#[trigger] skipped_positions(decoded, m).contains(i as usize) <==> decoded[i] is None),
    decreases m,
{
    if m > 0 {
        lemma_positions(decoded, m - 1);
        let k0 = kept_positions(decoded, m - 1);
        let s0 = skipped_positions(decoded, m - 1);
        let k1 = kept_positions(decoded, m);
        let s1 = skipped_positions(decoded, m);
        assert forall|i: int| 0 <= i < m implies (#[trigger] k1.contains(i as usize) <==> decoded[i] is Some) by {
            if k1.contains(i as usize) {
                let a = choose|a: int| 0 <= a < k1.len() && k1[a] == i as usize;
                if a < k0.len() {
                    assert(k0[a] == k1[a]);
                    assert(k0.contains(i as usize));
                }
            }
            if i < m - 1 && k0.contains(i as usize) {
                let a = choose|a: int| 0 <= a < k0.len() && k0[a] == i as usize;
                assert(k1[a] == k0[a]);
            }
            if i == m - 1 && decoded[i] is Some {
                assert(k1[k0.len() as int] == i as usize);
            }
            if i == m - 1 && k0.contains(i as usize) {
                let a = choose|a: int| 0 <= a < k0.len() && k0[a] == i as usize;
            }
        }
        assert forall|i: int| 0 <= i < m implies (#[trigger] s1.contains(i as usize) <==> decoded[i] is None) by {
            if s1.contains(i as usize) {
                let a = choose|a: int| 0 <= a < s1.len() && s1[a] == i as usize;
                if a < s0.len() {
                    assert(s0[a] == s1[a]);
                    assert(s0.contains(i as usize));
                }
            }
            if i < m - 1 && s0.contains(i as usize) {
                let a = choose|a: int| 0 <= a < s0.len() && s0[a] == i as usize;
                assert(s1[a] == s0[a]);
            }
            if i == m - 1 && decoded[i] is None {
                assert(s1[s0.len() as int] == i as usize);
            }
            if i == m - 1 && s0.contains(i as usize) {
                let a = choose|a: int| 0 <= a < s0.len() && s0[a] == i as usize;
            }
        }
    }
}

proof fn lemma_tier_partitioned(decoded: Seq<Option<Vec<u8>>>, cs: Seq<ClusterModel>, dt: int, di: int)
    requires
        decoded.len() <= usize::MAX,
        shape_ok(cs, dt, di, kept_positions(decoded, decoded.len() as int).len() as int),
        partitions(cs, kept_positions(decoded, decoded.len() as int).len() as int),
    ensures
        tier_partitioned(
            decoded.len() as int,
            cs,
            kept_positions(decoded, decoded.len() as int),
            skipped_positions(decoded, decoded.len() as int),
        ),
{
    let n = decoded.len() as int;
    let kept = kept_positions(decoded, n);
    let skipped = skipped_positions(decoded, n);
    lemma_positions(decoded, n);
    assert forall|i: int| 0 <= i < n implies (#[trigger] skipped.contains(i as usize) != doc_clustered(cs, kept, i)) by {
        if kept.contains(i as usize) {
            let j = choose|j: int| 0 <= j < kept.len() && kept[j] == i as usize;
            assert(crate::clustering::clustered(cs, j));
            let (k, p) = choose|k: int, p: int| #[trigger] member_at(cs, k, p, j);
            assert(doc_member_at(cs, kept, k, p, i));
        }
        if doc_clustered(cs, kept, i) {
            let (k, p) = choose|k: int, p: int| #[trigger] doc_member_at(cs, kept, k, p, i);
            assert(kept[cs[k].members[p] as int] == i);
            assert(kept.contains(i as usize));
        }
    }
    assert forall|k1: int, p1: int, k2: int, p2: int, i: int|
        #[trigger] doc_member_at(cs, kept, k1, p1, i) && #[trigger] doc_member_at(cs, kept, k2, p2, i)
        implies k1 == k2 && p1 == p2 by {
        let j1 = cs[k1].members[p1] as int;
        let j2 = cs[k2].members[p2] as int;
        if j1 < j2 {
            assert(kept[j1] < kept[j2]);
        } else if j2 < j1 {
            assert(kept[j2] < kept[j1]);
        }
        assert(member_at(cs, k1, p1, j1));
        assert(member_at(cs, k2, p2, j1));
    }
    assert forall|a: int, b: int|
        0 <= a < skipped.len() && 0 <= b < skipped.len() && #[trigger] skipped[a] == #[trigger] skipped[b]
        implies a == b by {
        if a < b {
            assert(skipped[a] < skipped[b]);
        } else if b < a {
            assert(skipped[b] < skipped[a]);
        }
    }
}

/// By filename: every group is non-empty; each decoded document stands in
/// exactly one group, once; no skipped document stands in any.
pub open spec fn names_split(
    groups: Seq<Seq<Seq<char>>>,
    docs: Seq<Document>,
    decoded: Seq<Option<Vec<u8>>>,
) -> bool {
    &&& forall|k: int| 0 <= k < groups.len() ==> (#[trigger] groups[k]).len() > 0
    &&& forall|i: int|
        0 <= i < docs.len() ==> (#[trigger] name_listed(groups, docs[i].filename@) <==> decoded[i] is Some)
    &&& forall|k1: int, p1: int, k2: int, p2: int, name: Seq<char>|
        #[trigger] name_at(groups, k1, p1, name) && #[trigger] name_at(groups, k2, p2, name) ==> k1 == k2
            && p1 == p2
}

/// Clusters one tier over a given vocabulary. `decoded[i]` holds the RGB
/// samples of `docs[i]`'s screenshot, or nothing where it could not be
/// decoded; such documents are skipped. Fails (`None`) exactly when the
/// vocabulary is too large for the fixed-point arithmetic.
pub fn process_tier_with(
    docs: &Vec<Document>,
    vocab: &Vec<String>,
    decoded: &Vec<Option<Vec<u8>>>,
    config: &ClusterConfig,
) -> (r: Option<TierResult>)
    requires
        config.wf(),
        docs@.len() == decoded@.len(),
        decoded_ok(decoded@),
    ensures
        r is None <==> vocab@.len() > MAX_DIM,
        r matches Some(res) ==> outcome_matches(*config, docs@, strings_view(vocab@), decoded@, res),
        r matches Some(res) ==> tier_partitioned(
            docs@.len() as int,
            tier_clusters(*config, docs@, strings_view(vocab@), decoded@),
            kept_positions(decoded@, decoded@.len() as int),
            res.skipped@,
        ),
        r matches Some(res) ==> (distinct_filenames(docs@) ==> names_split(
            groups_view(res.clusters@),
            docs@,
            decoded@,
        )),
{
    if vocab.len() > MAX_DIM {
        return None;
    }
    let ghost vv = strings_view(vocab@);
    let mut valid_docs: Vec<Document> = Vec::new();
    let mut texts: Vec<TextFeatures> = Vec::new();
    let mut images: Vec<ImageFeatures> = Vec::new();
    let mut skipped: Vec<usize> = Vec::new();
    let mut i: usize = 0;
    while i < docs.len()
        invariant
            config.wf(),
            vv == strings_view(vocab@),
            vocab@.len() <= MAX_DIM,
            docs@.len() == decoded@.len(),
            decoded_ok(decoded@),
            0 <= i <= docs@.len(),
            valid_docs@.len() == kept_positions(decoded@, i as int).len(),
            forall|p: int| 0 <= p < valid_docs@.len() ==> kept_positions(decoded@, i as int)[p] < i,
            forall|p: int|
                0 <= p < valid_docs@.len() ==> (#[trigger] valid_docs@[p]).filename@
                    == docs@[kept_positions(decoded@, i as int)[p] as int].filename@,
            text_vectors(texts@) == tier_texts(docs@, vv, kept_positions(decoded@, i as int)),
            image_vectors(images@) == tier_images(decoded@, kept_positions(decoded@, i as int)),
            valid_features(text_vectors(texts@), image_vectors(images@)),
            forall|p: int| 0 <= p < texts@.len() ==> (#[trigger] texts@[p]).tfidf_vector@.len() == vocab@.len(),
            forall|p: int| 0 <= p < images@.len() ==> (#[trigger] images@[p]).color_histogram@.len() == BUCKETS,
            skipped@ == skipped_positions(decoded@, i as int),
        decreases docs@.len() - i,
    {
        let ghost kept_before = kept_positions(decoded@, i as int);
        match &decoded[i] {
            Some(rgb) => {
                assert(decoded@[i as int] matches Some(x) ==> x@.len() % 3 == 0);
                let tf = TextFeatures::from_document(&docs[i], vocab);
                let imf = ImageFeatures::from_rgb(rgb);
                let d = Document {
                    filename: docs[i].filename.clone(),
                    text: docs[i].text.clone(),
                    screenshot: docs[i].screenshot.clone(),
                };
                let ghost tfv = tf.tfidf_vector@;
                let ghost imv = imf.color_histogram@;
                assert(decoded@[i as int] == Some(*rgb));
                let ghost tv_before = text_vectors(texts@);
                let ghost iv_before = image_vectors(images@);
                valid_docs.push(d);
                texts.push(tf);
                images.push(imf);
                proof {
                    let kept = kept_positions(decoded@, i + 1);
                    assert(kept == kept_before.push(i));
                    assert(tier_texts(docs@, vv, kept) =~= tier_texts(docs@, vv, kept_before).push(tfv));
                    assert(text_vectors(texts@) =~= tv_before.push(tfv));
                    assert(tier_images(decoded@, kept) =~= tier_images(decoded@, kept_before).push(imv));
                    assert(image_vectors(images@) =~= iv_before.push(imv));
                    let tvs = text_vectors(texts@);
                    let ivs = image_vectors(images@);
                    assert forall|p: int| 0 <= p < tvs.len() implies unit_vector(#[trigger] tvs[p]) by {
                        if p < tv_before.len() {
                            assert(tvs[p] == tv_before[p]);
                        }
                    }
                    assert forall|p: int| 0 <= p < ivs.len() implies hist_vector(#[trigger] ivs[p]) by {
                        if p < iv_before.len() {
                            assert(ivs[p] == iv_before[p]);
                        }
                    }
                    assert forall|p: int| 0 <= p < tvs.len() implies (#[trigger] tvs[p]).len() == tvs[0].len() by {
                        assert(tvs[p] == texts@[p].tfidf_vector@);
                        assert(tvs[0] == texts@[0].tfidf_vector@);
                    }
                    assert forall|p: int| 0 <= p < ivs.len() implies (#[trigger] ivs[p]).len() == ivs[0].len() by {
                        assert(ivs[p] == images@[p].color_histogram@);
                        assert(ivs[0] == images@[0].color_histogram@);
                    }
                    assert forall|p: int|
                        0 <= p < valid_docs@.len() implies (#[trigger] valid_docs@[p]).filename@
                            == docs@[kept[p] as int].filename@ by {
                        if p < kept_before.len() {
                            assert(kept[p] == kept_before[p]);
                        }
                    }
                }
            },
            None => {
                skipped.push(i);
                proof {
                    assert(kept_positions(decoded@, i + 1) == kept_before);
                }
            },
        }
        i = i + 1;
    }
    let clusters = cluster_documents(&valid_docs, &texts, &images, config);
    let n_kept: usize = texts.len();
    let n_decoded: usize = decoded.len();
    proof {
        assert(text_vectors(texts@).len() == n_kept);
        assert(decoded@.len() == n_decoded);
        let kept = kept_positions(decoded@, decoded@.len() as int);
        let tvs = text_vectors(texts@);
        let ivs = image_vectors(images@);
        let cs = clusters_after(*config, tvs, ivs, valid_docs@.len() as int);
        lemma_clusters_after_invariants(*config, tvs, ivs, tvs.len() as int, vocab@.len() as int, BUCKETS as int);
        lemma_tier_partitioned(decoded@, cs, vocab@.len() as int, BUCKETS as int);
        if distinct_filenames(docs@) {
            lemma_positions(decoded@, decoded@.len() as int);
            let groups = groups_view(clusters@);
            assert(distinct_filenames(valid_docs@)) by {
                assert forall|a: int, b: int|
                    0 <= a < valid_docs@.len() && 0 <= b < valid_docs@.len() && a != b implies #[trigger] valid_docs@[a].filename@
                        != #[trigger] valid_docs@[b].filename@ by {
                    if a < b {
                        assert(kept[a] < kept[b]);
                    } else {
                        assert(kept[b] < kept[a]);
                    }
                    assert(docs@[kept[a] as int].filename@ != docs@[kept[b] as int].filename@);
                }
            }
            assert(groups_partition_names(groups, valid_docs@));
            assert forall|i: int| 0 <= i < docs@.len() implies (#[trigger] name_listed(groups, docs@[i].filename@)
                <==> decoded@[i] is Some) by {
                if decoded@[i] is Some {
                    assert(kept.contains(i as usize));
                    let q = choose|q: int| 0 <= q < kept.len() && kept[q] == i as usize;
                    assert(valid_docs@[q].filename@ == docs@[i].filename@);
                    assert(name_listed(groups, valid_docs@[q].filename@));
                }
                if name_listed(groups, docs@[i].filename@) {
                    let (k, p) = choose|k: int, p: int| #[trigger] name_at(groups, k, p, docs@[i].filename@);
                    assert(is_doc_name(valid_docs@, groups[k][p]));
                    let q = choose|q: int| 0 <= q < valid_docs@.len() && #[trigger] valid_docs@[q].filename@ == groups[k][p];
                    assert(docs@[kept[q] as int].filename@ == docs@[i].filename@);
                    assert(kept[q] as int == i);
                    assert(kept.contains(i as usize));
                }
            }
        }
        assert forall|k: int| 0 <= k < cs.len() implies names_view(#[trigger] clusters@[k]) == kept_names(
            docs@,
            kept,
            cs[k].members,
        ) by {
            assert(shape_ok(cs, vocab@.len() as int, BUCKETS as int, tvs.len() as int));
            let m = cs[k].members;
            assert(member_names(valid_docs@, m) =~= kept_names(docs@, kept, m)) by {
                assert forall|p: int| 0 <= p < m.len() implies member_names(valid_docs@, m)[p] == kept_names(docs@, kept, m)[p] by {
                    assert(m[p] < tvs.len());
                    assert(valid_docs@[m[p] as int].filename@ == docs@[kept[m[p] as int] as int].filename@);
                }
            }
        }
    }
    Some(TierResult { clusters, skipped })
}

/// Clusters one tier: builds its vocabulary (English stop words left out),
/// then clusters the documents whose screenshot was decoded and skips the
/// others. Fails (`None`) exactly when the vocabulary is too large for the
/// fixed-point arithmetic.
pub fn process_tier(docs: &Vec<Document>, decoded: &Vec<Option<Vec<u8>>>, config: &ClusterConfig) -> (r:
    Option<TierResult>)
    requires
        config.wf(),
        docs@.len() == decoded@.len(),
        decoded_ok(decoded@),
    ensures
        exists|v: Seq<Seq<char>>| #[trigger] is_vocabulary(docs@, english_stop_words(), v),
        forall|v: Seq<Seq<char>>|
            #[trigger] is_vocabulary(docs@, english_stop_words(), v) ==> match r {
                Some(res) => {
                    &&& v.len() <= MAX_DIM
                    &&& outcome_matches(*config, docs@, v, decoded@, res)
                    &&& tier_partitioned(
                        docs@.len() as int,
                        tier_clusters(*config, docs@, v, decoded@),
                        kept_positions(decoded@, decoded@.len() as int),
                        res.skipped@,
                    )
                },
                None => v.len() > MAX_DIM,
            },
        r matches Some(res) ==> (distinct_filenames(docs@) ==> names_split(
            groups_view(res.clusters@),
            docs@,
            decoded@,
        )),
{
    let vocab = build_vocabulary(docs);
    let r = process_tier_with(docs, &vocab, decoded, config);
    proof {
        assert(is_vocabulary(docs@, english_stop_words(), strings_view(vocab@)));
        assert forall|v: Seq<Seq<char>>|
            #[trigger] is_vocabulary(docs@, english_stop_words(), v) implies v == strings_view(vocab@) by {
            lemma_vocabulary_unique(docs@, english_stop_words(), v, strings_view(vocab@));
        }
    }
    r
}

} // verus!
