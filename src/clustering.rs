//! Greedy single-pass clustering that fuses text and image similarity.
use vstd::prelude::*;
use crate::image_processor::ImageFeatures;
use crate::similarity::{
    bounded_by, cosine_similarity, cosine_spec, hist_vector, histogram_similarity, intersection_spec,
    unit_vector, HIST_SCALE, SCALE, SCALE_RATIO,
};
use crate::document::Document;
use crate::vectorizer::TextFeatures;

verus! {

/// Weights and similarity floors, all in units of `SCALE`.
pub struct ClusterConfig {
    pub text_weight: u64,
    pub image_weight: u64,
    pub text_threshold: u64,
    pub image_threshold: u64,
}

impl ClusterConfig {
    /// The two weights sum to one.
    pub open spec fn wf(&self) -> bool {
        self.text_weight + self.image_weight == SCALE
    }

    /// `text_weight * text_threshold + image_weight * image_threshold`, in
    /// the units of the fused score (`SCALE * HIST_SCALE`).
    pub open spec fn combined_threshold_spec(&self) -> int {
        (self.text_weight * self.text_threshold + self.image_weight * self.image_threshold) * SCALE_RATIO
    }

    /// Weights 0.7 / 0.3, text floor 0.7, image floor 0.85.
    pub fn standard() -> (r: ClusterConfig)
        ensures
            r.wf(),
            r.text_weight == 700_000,
            r.image_weight == 300_000,
            r.text_threshold == 700_000,
            r.image_threshold == 850_000,
    {
        ClusterConfig {
            text_weight: 700_000,
            image_weight: 300_000,
            text_threshold: 700_000,
            image_threshold: 850_000,
        }
    }

    pub fn combined_threshold(&self) -> (r: u128)
        requires
            self.wf(),
        ensures
            r == self.combined_threshold_spec(),
    {
        assert(self.text_weight * self.text_threshold <= SCALE * u64::MAX) by (nonlinear_arith)
            requires
                self.text_weight <= SCALE,
        ;
        assert(self.image_weight * self.image_threshold <= SCALE * u64::MAX) by (nonlinear_arith)
            requires
                self.image_weight <= SCALE,
        ;
        assert((self.text_weight * self.text_threshold + self.image_weight * self.image_threshold)
            * SCALE_RATIO <= 2 * SCALE * u64::MAX * SCALE_RATIO) by (nonlinear_arith)
            requires
                self.text_weight * self.text_threshold <= SCALE * u64::MAX,
                self.image_weight * self.image_threshold <= SCALE * u64::MAX,
        ;
        ((self.text_weight as u128) * (self.text_threshold as u128) + (self.image_weight as u128)
            * (self.image_threshold as u128)) * (SCALE_RATIO as u128)
    }
}

/// What a cluster is: its two centroids and the input positions of its members.
pub ghost struct ClusterModel {
    pub text_centroid: Seq<u64>,
    pub image_centroid: Seq<u64>,
    pub members: Seq<usize>,
}

/// A cluster under construction. Members are positions in the input sequence.
pub struct Cluster {
    pub text_centroid: Vec<u64>,
    pub image_centroid: Vec<u64>,
    pub members: Vec<usize>,
}

impl View for Cluster {
    type V = ClusterModel;

    open spec fn view(&self) -> ClusterModel {
        ClusterModel {
            text_centroid: self.text_centroid@,
            image_centroid: self.image_centroid@,
            members: self.members@,
        }
    }
}

pub open spec fn models(cs: Seq<Cluster>) -> Seq<ClusterModel> {
    cs.map_values(|c: Cluster| c@)
}

pub open spec fn text_vectors(fs: Seq<TextFeatures>) -> Seq<Seq<u64>> {
    fs.map_values(|f: TextFeatures| f.tfidf_vector@)
}

pub open spec fn image_vectors(fs: Seq<ImageFeatures>) -> Seq<Seq<u64>> {
    fs.map_values(|f: ImageFeatures| f.color_histogram@)
}

/// Feature vectors of one tier: as many text as image vectors, every
/// component in `[0, 1]`, and one dimension per modality.
pub open spec fn valid_features(texts: Seq<Seq<u64>>, images: Seq<Seq<u64>>) -> bool {
    &&& texts.len() == images.len()
    &&& forall|i: int| 0 <= i < texts.len() ==> unit_vector(#[trigger] texts[i])
    &&& forall|i: int| 0 <= i < images.len() ==> hist_vector(#[trigger] images[i])
    &&& forall|i: int| 0 <= i < texts.len() ==> (#[trigger] texts[i]).len() == texts[0].len()
    &&& forall|i: int| 0 <= i < images.len() ==> (#[trigger] images[i]).len() == images[0].len()
}

/// `text_weight * cosine + image_weight * intersection` against one cluster,
/// in units of `SCALE * HIST_SCALE`.
pub open spec fn fused_score(cfg: ClusterConfig, t: Seq<u64>, im: Seq<u64>, c: ClusterModel) -> int {
    cfg.text_weight * cosine_spec(t, c.text_centroid) * SCALE_RATIO + cfg.image_weight * intersection_spec(
        im,
        c.image_centroid,
    )
}

/// Among the first `n` clusters, the one with the greatest fused score that
/// reaches the combined threshold; ties go to the earliest.
pub open spec fn best_cluster(
    cfg: ClusterConfig,
    t: Seq<u64>,
    im: Seq<u64>,
    cs: Seq<ClusterModel>,
    n: int,
) -> Option<int>
    decreases n,
{
    if n <= 0 {
        None
    } else {
        let prev = best_cluster(cfg, t, im, cs, n - 1);
        let s = fused_score(cfg, t, im, cs[n - 1]);
        if s >= cfg.combined_threshold_spec() && (prev is None || s > fused_score(
            cfg,
            t,
            im,
            cs[prev->0],
        )) {
            Some(n - 1)
        } else {
            prev
        }
    }
}

/// The running mean after adding `v` as the `n`-th vector:
/// `(c[k] * (n - 1) + v[k]) / n`, rounded down.
pub open spec fn running_mean(c: Seq<u64>, v: Seq<u64>, n: int) -> Seq<u64> {
    Seq::new(c.len(), |k: int| ((c[k] * (n - 1) + v[k]) / n) as u64)
}

pub open spec fn joined(c: ClusterModel, idx: usize, t: Seq<u64>, im: Seq<u64>) -> ClusterModel {
    let n = c.members.len() + 1int;
    ClusterModel {
        text_centroid: running_mean(c.text_centroid, t, n),
        image_centroid: running_mean(c.image_centroid, im, n),
        members: c.members.push(idx),
    }
}

pub open spec fn singleton(idx: usize, t: Seq<u64>, im: Seq<u64>) -> ClusterModel {
    ClusterModel { text_centroid: t, image_centroid: im, members: seq![idx] }
}

/// One step of the algorithm: join the best qualifying cluster, or start a new one.
pub open spec fn assign(
    cfg: ClusterConfig,
    cs: Seq<ClusterModel>,
    idx: usize,
    t: Seq<u64>,
    im: Seq<u64>,
) -> Seq<ClusterModel> {
    match best_cluster(cfg, t, im, cs, cs.len() as int) {
        Some(k) => cs.update(k, joined(cs[k], idx, t, im)),
        None => cs.push(singleton(idx, t, im)),
    }
}

/// The clusters after the first `n` inputs, in input order.
pub open spec fn clusters_after(
    cfg: ClusterConfig,
    texts: Seq<Seq<u64>>,
    images: Seq<Seq<u64>>,
    n: int,
) -> Seq<ClusterModel>
    decreases n,
{
    if n <= 0 {
        seq![]
    } else {
        assign(cfg, clusters_after(cfg, texts, images, n - 1), (n - 1) as usize, texts[n - 1], images[n - 1])
    }
}

/// Centroids keep their dimensions and stay in `[0, 1]`; every cluster is
/// non-empty with at most `n` members, all below `n`.
pub open spec fn shape_ok(cs: Seq<ClusterModel>, dt: int, di: int, n: int) -> bool {
    forall|k: int|
        0 <= k < cs.len() ==> {
            let c = #[trigger] cs[k];
            &&& c.text_centroid.len() == dt
            &&& c.image_centroid.len() == di
            &&& unit_vector(c.text_centroid)
            &&& hist_vector(c.image_centroid)
            &&& 0 < c.members.len() <= n
            &&& forall|p: int| 0 <= p < c.members.len() ==> c.members[p] < n
        }
}

/// Every centroid has the given dimensions and lies in `[0, 1]`.
pub open spec fn centroids_fit(cs: Seq<ClusterModel>, dt: int, di: int) -> bool {
    forall|k: int|
        0 <= k < cs.len() ==> {
            let c = #[trigger] cs[k];
            &&& c.text_centroid.len() == dt
            &&& c.image_centroid.len() == di
            &&& unit_vector(c.text_centroid)
            &&& hist_vector(c.image_centroid)
        }
}

/// Every member of every cluster is a position below `n`.
pub open spec fn members_below(cs: Seq<ClusterModel>, n: int) -> bool {
    forall|k: int, p: int|
        0 <= k < cs.len() && 0 <= p < cs[k].members.len() ==> #[trigger] cs[k].members[p] < n
}

/// Position `j` is a member of cluster `k` at place `p`.
pub open spec fn member_at(cs: Seq<ClusterModel>, k: int, p: int, j: int) -> bool {
    0 <= k < cs.len() && 0 <= p < cs[k].members.len() && cs[k].members[p] == j
}

/// Position `j` is a member of some cluster.
pub open spec fn clustered(cs: Seq<ClusterModel>, j: int) -> bool {
    exists|k: int, p: int| #[trigger] member_at(cs, k, p, j)
}

/// Every input position below `n` stands in exactly one cluster, exactly once.
pub open spec fn partitions(cs: Seq<ClusterModel>, n: int) -> bool {
    &&& forall|j: int| 0 <= j < n ==> #[trigger] clustered(cs, j)
    &&& forall|k1: int, p1: int, k2: int, p2: int, j: int|
        #[trigger] member_at(cs, k1, p1, j) && #[trigger] member_at(cs, k2, p2, j) ==> k1 == k2
            && p1 == p2
}

proof fn lemma_mean_step(c: int, v: int, n: int, bound: int)
    requires
        0 <= c <= bound,
        0 <= v <= bound,
        n >= 1,
    ensures
        0 <= (c * (n - 1) + v) / n <= bound,
{
    assert(0 <= c * (n - 1) + v <= bound * n) by (nonlinear_arith)
        requires
            0 <= c <= bound,
            0 <= v <= bound,
            n >= 1,
    ;
    assert((bound * n) / n == bound) by (nonlinear_arith)
        requires
            n >= 1,
    ;
    assert((c * (n - 1) + v) / n <= (bound * n) / n) by (nonlinear_arith)
        requires
            c * (n - 1) + v <= bound * n,
            n >= 1,
    ;
}

proof fn lemma_running_mean_bounded(c: Seq<u64>, v: Seq<u64>, n: int, bound: int)
    requires
        bounded_by(c, bound),
        bounded_by(v, bound),
        c.len() == v.len(),
        n >= 1,
    ensures
        running_mean(c, v, n).len() == c.len(),
        bounded_by(running_mean(c, v, n), bound),
{
    assert forall|k: int| 0 <= k < c.len() implies running_mean(c, v, n)[k] <= bound by {
        lemma_mean_step(c[k] as int, v[k] as int, n, bound);
    }
}

proof fn lemma_best_in_range(cfg: ClusterConfig, t: Seq<u64>, im: Seq<u64>, cs: Seq<ClusterModel>, n: int)
    ensures
        best_cluster(cfg, t, im, cs, n) matches Some(k) ==> 0 <= k < n,
    decreases n,
{
    if n > 0 {
        lemma_best_in_range(cfg, t, im, cs, n - 1);
    }
}

proof fn lemma_assign_keeps_invariants(
    cfg: ClusterConfig,
    cs: Seq<ClusterModel>,
    n: int,
    t: Seq<u64>,
    im: Seq<u64>,
    dt: int,
    di: int,
)
    requires
        0 <= n < usize::MAX,
        shape_ok(cs, dt, di, n),
        partitions(cs, n),
        unit_vector(t),
        hist_vector(im),
        t.len() == dt,
        im.len() == di,
    ensures
        shape_ok(assign(cfg, cs, n as usize, t, im), dt, di, n + 1),
        partitions(assign(cfg, cs, n as usize, t, im), n + 1),
{
    let ns = assign(cfg, cs, n as usize, t, im);
    lemma_best_in_range(cfg, t, im, cs, cs.len() as int);
    match best_cluster(cfg, t, im, cs, cs.len() as int) {
        Some(k) => {
            let c = cs[k];
            let m = c.members.len() + 1int;
            lemma_running_mean_bounded(c.text_centroid, t, m, SCALE as int);
            lemma_running_mean_bounded(c.image_centroid, im, m, HIST_SCALE as int);
            assert(ns[k].members == c.members.push(n as usize));
            assert forall|j: int| 0 <= j < n + 1 implies #[trigger] clustered(ns, j) by {
                if j == n {
                    assert(member_at(ns, k, c.members.len() as int, j));
                } else {
                    assert(clustered(cs, j));
                    let (k1, p1) = choose|k1: int, p1: int| #[trigger] member_at(cs, k1, p1, j);
                    assert(member_at(ns, k1, p1, j));
                }
            }
            assert forall|k1: int, p1: int, k2: int, p2: int, j: int|
                #[trigger] member_at(ns, k1, p1, j) && #[trigger] member_at(ns, k2, p2, j)
                implies k1 == k2 && p1 == p2 by {
                if j == n {
                    assert(k1 == k && p1 == c.members.len());
                    assert(k2 == k && p2 == c.members.len());
                } else {
                    assert(member_at(cs, k1, p1, j));
                    assert(member_at(cs, k2, p2, j));
                }
            }
        },
        None => {
            let last = cs.len() as int;
            assert(ns[last] == singleton(n as usize, t, im));
            assert forall|j: int| 0 <= j < n + 1 implies #[trigger] clustered(ns, j) by {
                if j == n {
                    assert(member_at(ns, last, 0, j));
                } else {
                    assert(clustered(cs, j));
                    let (k1, p1) = choose|k1: int, p1: int| #[trigger] member_at(cs, k1, p1, j);
                    assert(member_at(ns, k1, p1, j));
                }
            }
            assert forall|k1: int, p1: int, k2: int, p2: int, j: int|
                #[trigger] member_at(ns, k1, p1, j) && #[trigger] member_at(ns, k2, p2, j)
                implies k1 == k2 && p1 == p2 by {
                if j == n {
                    assert(k1 == last && p1 == 0);
                    assert(k2 == last && p2 == 0);
                } else {
                    assert(member_at(cs, k1, p1, j));
                    assert(member_at(cs, k2, p2, j));
                }
            }
        },
    }
}

/// The clusters after any prefix of a tier's inputs keep their shape and
/// partition the positions seen so far.
pub proof fn lemma_clusters_after_invariants(
    cfg: ClusterConfig,
    texts: Seq<Seq<u64>>,
    images: Seq<Seq<u64>>,
    n: int,
    dt: int,
    di: int,
)
    requires
        valid_features(texts, images),
        0 <= n <= texts.len(),
        texts.len() <= usize::MAX,
        forall|i: int| 0 <= i < texts.len() ==> (#[trigger] texts[i]).len() == dt,
        forall|i: int| 0 <= i < images.len() ==> (#[trigger] images[i]).len() == di,
    ensures
        shape_ok(clusters_after(cfg, texts, images, n), dt, di, n),
        partitions(clusters_after(cfg, texts, images, n), n),
    decreases n,
{
    if n > 0 {
        lemma_clusters_after_invariants(cfg, texts, images, n - 1, dt, di);
        lemma_assign_keeps_invariants(
            cfg,
            clusters_after(cfg, texts, images, n - 1),
            n - 1,
            texts[n - 1],
            images[n - 1],
            dt,
            di,
        );
    }
}

/// The running mean of one centroid after its `n`-th member `v` arrived.
fn mean_update(c: &Vec<u64>, v: &Vec<u64>, n: usize, Ghost(bound): Ghost<int>) -> (r: Vec<u64>)
    requires
        bounded_by(c@, bound),
        bounded_by(v@, bound),
        bound <= HIST_SCALE,
        c@.len() == v@.len(),
        n >= 1,
    ensures
        r@ == running_mean(c@, v@, n as int),
{
    let mut r: Vec<u64> = Vec::new();
    let mut k: usize = 0;
    while k < c.len()
        invariant
            bounded_by(c@, bound),
            bounded_by(v@, bound),
            bound <= HIST_SCALE,
            c@.len() == v@.len(),
            n >= 1,
            0 <= k <= c@.len(),
            r@ == running_mean(c@, v@, n as int).subrange(0, k as int),
        decreases c@.len() - k,
    {
        proof {
            lemma_mean_step(c[k as int] as int, v[k as int] as int, n as int, bound);
        }
        assert((c[k as int] as int) * (n - 1) <= HIST_SCALE * usize::MAX) by (nonlinear_arith)
            requires
                c[k as int] <= HIST_SCALE,
                n <= usize::MAX,
        ;
        let x: u128 = ((c[k] as u128) * ((n - 1) as u128) + v[k] as u128) / (n as u128);
        r.push(x as u64);
        k = k + 1;
    }
    assert(r@ =~= running_mean(c@, v@, n as int));
    r
}

/// Folds the latest member's features into both centroids by the running
/// mean, `n` being the member count after the insertion.
pub fn update_centroid(cluster: &mut Cluster, text: &Vec<u64>, image: &Vec<u64>)
    requires
        old(cluster).members@.len() >= 1,
        unit_vector(old(cluster).text_centroid@),
        hist_vector(old(cluster).image_centroid@),
        unit_vector(text@),
        hist_vector(image@),
        old(cluster).text_centroid@.len() == text@.len(),
        old(cluster).image_centroid@.len() == image@.len(),
    ensures
        final(cluster).members == old(cluster).members,
        final(cluster).text_centroid@ == running_mean(
            old(cluster).text_centroid@,
            text@,
            old(cluster).members@.len() as int,
        ),
        final(cluster).image_centroid@ == running_mean(
            old(cluster).image_centroid@,
            image@,
            old(cluster).members@.len() as int,
        ),
{
    let n = cluster.members.len();
    cluster.text_centroid = mean_update(&cluster.text_centroid, text, n, Ghost(SCALE as int));
    cluster.image_centroid = mean_update(&cluster.image_centroid, image, n, Ghost(HIST_SCALE as int));
}

/// The position of the best qualifying cluster, if any.
fn find_best(clusters: &Vec<Cluster>, t: &Vec<u64>, im: &Vec<u64>, config: &ClusterConfig) -> (r:
    Option<usize>)
    requires
        config.wf(),
        unit_vector(t@),
        hist_vector(im@),
        centroids_fit(models(clusters@), t@.len() as int, im@.len() as int),
    ensures
        match r {
            Some(k) => best_cluster(*config, t@, im@, models(clusters@), clusters@.len() as int)
                == Some(k as int),
            None => best_cluster(
                *config,
                t@,
                im@,
                models(clusters@),
                clusters@.len() as int,
            ) is None,
        },
{
    let ghost cs = models(clusters@);
    let threshold = config.combined_threshold();
    let mut best: Option<usize> = None;
    let mut best_score: u128 = 0;
    let mut i: usize = 0;
    while i < clusters.len()
        invariant
            config.wf(),
            unit_vector(t@),
            hist_vector(im@),
            cs == models(clusters@),
            centroids_fit(cs, t@.len() as int, im@.len() as int),
            threshold == config.combined_threshold_spec(),
            0 <= i <= clusters@.len(),
            match best {
                Some(k) => best_cluster(*config, t@, im@, cs, i as int) == Some(k as int)
                    && best_score == fused_score(*config, t@, im@, cs[k as int]),
                None => best_cluster(*config, t@, im@, cs, i as int) is None,
            },
        decreases clusters@.len() - i,
    {
        assert(cs[i as int] == clusters@[i as int]@);
        let text_sim = cosine_similarity(t, &clusters[i].text_centroid);
        let image_sim = histogram_similarity(im, &clusters[i].image_centroid);
        assert(config.text_weight * text_sim * SCALE_RATIO <= SCALE * (SCALE * u64::MAX) * SCALE_RATIO)
            by (nonlinear_arith)
            requires
                config.text_weight <= SCALE,
                text_sim <= SCALE * u64::MAX,
        ;
        assert(config.image_weight * image_sim <= SCALE * u64::MAX) by (nonlinear_arith)
            requires
                config.image_weight <= SCALE,
                image_sim <= u64::MAX,
        ;
        let score: u128 = (config.text_weight as u128) * text_sim * (SCALE_RATIO as u128)
            + (config.image_weight as u128) * (image_sim as u128);
        proof {
            lemma_best_in_range(*config, t@, im@, cs, i as int);
        }
        if score >= threshold && (best.is_none() || score > best_score) {
            best = Some(i);
            best_score = score;
        }
        i = i + 1;
    }
    best
}

/// Clusters a tier's feature vectors in input order: each input joins the
/// existing cluster with the greatest fused score at or above the combined
/// threshold (the earliest on ties), or else starts a cluster of its own.
pub fn cluster_features(
    text_features: &Vec<TextFeatures>,
    image_features: &Vec<ImageFeatures>,
    config: &ClusterConfig,
) -> (r: Vec<Cluster>)
    requires
        config.wf(),
        valid_features(text_vectors(text_features@), image_vectors(image_features@)),
    ensures
        models(r@) == clusters_after(
            *config,
            text_vectors(text_features@),
            image_vectors(image_features@),
            text_features@.len() as int,
        ),
        partitions(models(r@), text_features@.len() as int),
        members_below(models(r@), text_features@.len() as int),
{
    let ghost texts = text_vectors(text_features@);
    let ghost images = image_vectors(image_features@);
    let ghost dt: int = if texts.len() > 0 { texts[0].len() as int } else { 0 };
    let ghost di: int = if images.len() > 0 { images[0].len() as int } else { 0 };
    let mut clusters: Vec<Cluster> = Vec::new();
    let mut i: usize = 0;
    while i < text_features.len()
        invariant
            config.wf(),
            valid_features(texts, images),
            texts == text_vectors(text_features@),
            images == image_vectors(image_features@),
            forall|j: int| 0 <= j < texts.len() ==> (#[trigger] texts[j]).len() == dt,
            forall|j: int| 0 <= j < images.len() ==> (#[trigger] images[j]).len() == di,
            0 <= i <= text_features@.len(),
            models(clusters@) == clusters_after(*config, texts, images, i as int),
        decreases text_features@.len() - i,
    {
        proof {
            lemma_clusters_after_invariants(*config, texts, images, i as int, dt, di);
        }
        let t = &text_features[i].tfidf_vector;
        let im = &image_features[i].color_histogram;
        assert(t@ == texts[i as int]);
        assert(im@ == images[i as int]);
        let ghost cs = models(clusters@);
        let best = find_best(&clusters, t, im, config);
        proof {
            lemma_best_in_range(*config, t@, im@, cs, cs.len() as int);
        }
        match best {
            Some(k) => {
                let mut members = clusters[k].members.clone();
                assert(members@ =~= clusters[k as int].members@);
                members.push(i);
                let mut joined_cluster = Cluster {
                    text_centroid: clusters[k].text_centroid.clone(),
                    image_centroid: clusters[k].image_centroid.clone(),
                    members,
                };
                assert(joined_cluster.text_centroid@ =~= clusters[k as int].text_centroid@);
                assert(joined_cluster.image_centroid@ =~= clusters[k as int].image_centroid@);
                update_centroid(&mut joined_cluster, t, im);
                assert(joined_cluster@ == joined(cs[k as int], i, t@, im@));
                clusters.set(k, joined_cluster);
                assert(models(clusters@) =~= cs.update(k as int, joined(cs[k as int], i, t@, im@)));
            },
            None => {
                let mut members: Vec<usize> = Vec::new();
                members.push(i);
                let c = Cluster {
                    text_centroid: t.clone(),
                    image_centroid: im.clone(),
                    members,
                };
                assert(c.text_centroid@ =~= t@);
                assert(c.image_centroid@ =~= im@);
                assert(c.members@ =~= seq![i]);
                clusters.push(c);
                assert(models(clusters@) =~= cs.push(singleton(i, t@, im@)));
            },
        }
        i = i + 1;
    }
    proof {
        lemma_clusters_after_invariants(*config, texts, images, i as int, dt, di);
        let cs = models(clusters@);
        assert forall|k: int, p: int| 0 <= k < cs.len() && 0 <= p < cs[k].members.len()
            implies #[trigger] cs[k].members[p] < i by {
            assert(cs[k].members[p] < i);
        }
    }
    clusters
}

/// The filenames of the members of a cluster.
pub open spec fn member_names(docs: Seq<Document>, members: Seq<usize>) -> Seq<Seq<char>> {
    members.map_values(|p: usize| docs[p as int].filename@)
}

pub open spec fn names_view(names: Vec<String>) -> Seq<Seq<char>> {
    names@.map_values(|s: String| s@)
}

/// No two documents share a filename.
pub open spec fn distinct_filenames(docs: Seq<Document>) -> bool {
    forall|i: int, j: int|
        0 <= i < docs.len() && 0 <= j < docs.len() && i != j ==> #[trigger] docs[i].filename@
            != #[trigger] docs[j].filename@
}

/// `name` stands in group `k` at place `p`.
pub open spec fn name_at(groups: Seq<Seq<Seq<char>>>, k: int, p: int, name: Seq<char>) -> bool {
    0 <= k < groups.len() && 0 <= p < groups[k].len() && groups[k][p] == name
}

pub open spec fn name_listed(groups: Seq<Seq<Seq<char>>>, name: Seq<char>) -> bool {
    exists|k: int, p: int| #[trigger] name_at(groups, k, p, name)
}

/// The groups partition the documents' filenames: every group is
/// non-empty and holds filenames of documents only, and every filename
/// stands in exactly one group, once.
pub open spec fn groups_partition_names(groups: Seq<Seq<Seq<char>>>, docs: Seq<Document>) -> bool {
    &&& forall|k: int| 0 <= k < groups.len() ==> (#[trigger] groups[k]).len() > 0
    &&& forall|j: int| 0 <= j < docs.len() ==> #[trigger] name_listed(groups, docs[j].filename@)
    &&& forall|k1: int, p1: int, k2: int, p2: int, name: Seq<char>|
        #[trigger] name_at(groups, k1, p1, name) && #[trigger] name_at(groups, k2, p2, name) ==> k1 == k2
            && p1 == p2
    &&& forall|k: int, p: int|
        0 <= k < groups.len() && 0 <= p < groups[k].len() ==> is_doc_name(docs, #[trigger] groups[k][p])
}

/// `name` is the filename of one of the documents.
pub open spec fn is_doc_name(docs: Seq<Document>, name: Seq<char>) -> bool {
    exists|j: int| 0 <= j < docs.len() && #[trigger] docs[j].filename@ == name
}

pub open spec fn groups_view(r: Seq<Vec<String>>) -> Seq<Seq<Seq<char>>> {
    r.map_values(|g: Vec<String>| names_view(g))
}

/// Clusters that partition the positions of documents with distinct
/// filenames give name groups that partition their filenames.
pub proof fn lemma_names_partition(
    docs: Seq<Document>,
    cs: Seq<ClusterModel>,
    groups: Seq<Seq<Seq<char>>>,
    dt: int,
    di: int,
)
    requires
        distinct_filenames(docs),
        shape_ok(cs, dt, di, docs.len() as int),
        partitions(cs, docs.len() as int),
        groups.len() == cs.len(),
        forall|k: int| 0 <= k < cs.len() ==> #[trigger] groups[k] == member_names(docs, cs[k].members),
    ensures
        groups_partition_names(groups, docs),
{
    let n = docs.len() as int;
    assert forall|k: int| 0 <= k < groups.len() implies (#[trigger] groups[k]).len() > 0 by {
        assert(groups[k] == member_names(docs, cs[k].members));
    }
    assert forall|j: int| 0 <= j < n implies #[trigger] name_listed(groups, docs[j].filename@) by {
        assert(clustered(cs, j));
        let (k, p) = choose|k: int, p: int| #[trigger] member_at(cs, k, p, j);
        assert(groups[k] == member_names(docs, cs[k].members));
        assert(name_at(groups, k, p, docs[j].filename@));
    }
    assert forall|k1: int, p1: int, k2: int, p2: int, name: Seq<char>|
        #[trigger] name_at(groups, k1, p1, name) && #[trigger] name_at(groups, k2, p2, name)
        implies k1 == k2 && p1 == p2 by {
        assert(groups[k1] == member_names(docs, cs[k1].members));
        assert(groups[k2] == member_names(docs, cs[k2].members));
        let j1 = cs[k1].members[p1] as int;
        let j2 = cs[k2].members[p2] as int;
        assert(j1 < n && j2 < n);
        assert(docs[j1].filename@ == name && docs[j2].filename@ == name);
        assert(j1 == j2);
        assert(member_at(cs, k1, p1, j1));
        assert(member_at(cs, k2, p2, j1));
    }
    assert forall|k: int, p: int| 0 <= k < groups.len() && 0 <= p < groups[k].len() implies is_doc_name(
        docs,
        #[trigger] groups[k][p],
    ) by {
        assert(groups[k] == member_names(docs, cs[k].members));
        let j = cs[k].members[p] as int;
        assert(j < n);
        assert(groups[k][p] == docs[j].filename@);
    }
}

/// Clusters a tier's documents by their features (position `i` of each
/// sequence belongs to `docs[i]`) and returns each cluster's member
/// filenames, clusters in creation order.
pub fn cluster_documents(
    docs: &Vec<Document>,
    text_features: &Vec<TextFeatures>,
    image_features: &Vec<ImageFeatures>,
    config: &ClusterConfig,
) -> (r: Vec<Vec<String>>)
    requires
        config.wf(),
        docs@.len() == text_features@.len(),
        valid_features(text_vectors(text_features@), image_vectors(image_features@)),
    ensures
        ({
            let cs = clusters_after(
                *config,
                text_vectors(text_features@),
                image_vectors(image_features@),
                docs@.len() as int,
            );
            &&& r@.len() == cs.len()
            &&& forall|k: int|
                0 <= k < cs.len() ==> names_view(#[trigger] r@[k]) == member_names(
                    docs@,
                    cs[k].members,
                )
        }),
        distinct_filenames(docs@) ==> groups_partition_names(groups_view(r@), docs@),
{
    let clusters = cluster_features(text_features, image_features, config);
    let ghost cs = models(clusters@);
    let ghost n = docs@.len() as int;
    let n_docs: usize = docs.len();
    let mut out: Vec<Vec<String>> = Vec::new();
    let mut k: usize = 0;
    while k < clusters.len()
        invariant
            cs == models(clusters@),
            members_below(cs, n),
            n == docs@.len(),
            0 <= k <= clusters@.len(),
            out@.len() == k,
            forall|q: int| 0 <= q < k ==> names_view(#[trigger] out@[q]) == member_names(docs@, cs[q].members),
        decreases clusters@.len() - k,
    {
        let members = &clusters[k].members;
        assert(cs[k as int].members == members@);
        assert forall|q: int| 0 <= q < members@.len() implies members@[q] < docs@.len() by {
            assert(cs[k as int].members[q] < n);
        }
        let mut names: Vec<String> = Vec::new();
        let mut p: usize = 0;
        while p < members.len()
            invariant
                0 <= p <= members@.len(),
                forall|q: int| 0 <= q < members@.len() ==> members@[q] < docs@.len(),
                names_view(names) == member_names(docs@, members@).subrange(0, p as int),
            decreases members@.len() - p,
        {
            let name = docs[members[p]].filename.clone();
            let ghost before = names_view(names);
            names.push(name);
            assert(names_view(names) =~= before.push(name@));
            assert(member_names(docs@, members@)[p as int] == name@);
            p = p + 1;
            assert(names_view(names) =~= member_names(docs@, members@).subrange(0, p as int));
        }
        assert(names_view(names) =~= member_names(docs@, members@));
        out.push(names);
        k = k + 1;
    }
    proof {
        let texts = text_vectors(text_features@);
        let images = image_vectors(image_features@);
        assert(n == n_docs);
        lemma_clusters_after_invariants(
            *config,
            texts,
            images,
            n,
            if n > 0 { texts[0].len() as int } else { 0 },
            if n > 0 { images[0].len() as int } else { 0 },
        );
        if distinct_filenames(docs@) {
            let groups = groups_view(out@);
            assert forall|q: int| 0 <= q < cs.len() implies #[trigger] groups[q] == member_names(
                docs@,
                cs[q].members,
            ) by {
                assert(groups[q] == names_view(out@[q]));
            }
            lemma_names_partition(
                docs@,
                cs,
                groups,
                if n > 0 { texts[0].len() as int } else { 0 },
                if n > 0 { images[0].len() as int } else { 0 },
            );
        }
    }
    out
}

/// Clustering is a function of its inputs: the same feature sequences, in
/// the same order and under the same configuration, give the same clusters,
/// members and centroids alike.
pub proof fn lemma_clustering_deterministic(
    cfg: ClusterConfig,
    texts1: Seq<Seq<u64>>,
    images1: Seq<Seq<u64>>,
    texts2: Seq<Seq<u64>>,
    images2: Seq<Seq<u64>>,
)
    requires
        texts1 == texts2,
        images1 == images2,
    ensures
        clusters_after(cfg, texts1, images1, texts1.len() as int) == clusters_after(
            cfg,
            texts2,
            images2,
            texts2.len() as int,
        ),
{
}

/// A new cluster's centroids are exactly its first member's vectors; after a
/// second member joins, each centroid component is the mean of the two,
/// rounded down.
pub proof fn lemma_centroid_first_and_second(
    idx1: usize,
    t1: Seq<u64>,
    im1: Seq<u64>,
    idx2: usize,
    t2: Seq<u64>,
    im2: Seq<u64>,
)
    requires
        t1.len() == t2.len(),
        im1.len() == im2.len(),
    ensures
        singleton(idx1, t1, im1).text_centroid == t1,
        singleton(idx1, t1, im1).image_centroid == im1,
        joined(singleton(idx1, t1, im1), idx2, t2, im2).text_centroid.len() == t1.len(),
        joined(singleton(idx1, t1, im1), idx2, t2, im2).image_centroid.len() == im1.len(),
        forall|k: int|
            0 <= k < t1.len() ==> #[trigger] joined(singleton(idx1, t1, im1), idx2, t2, im2).text_centroid[k]
                == (t1[k] + t2[k]) / 2,
        forall|k: int|
            0 <= k < im1.len() ==> #[trigger] joined(singleton(idx1, t1, im1), idx2, t2, im2).image_centroid[k]
                == (im1[k] + im2[k]) / 2,
{
    let c = joined(singleton(idx1, t1, im1), idx2, t2, im2);
    assert(singleton(idx1, t1, im1).members.len() == 1);
    assert forall|k: int| 0 <= k < t1.len() implies #[trigger] c.text_centroid[k] == (t1[k] + t2[k]) / 2 by {
        assert(t1[k] * (2 - 1) == t1[k]);
        assert((t1[k] + t2[k]) / 2 <= u64::MAX);
    }
    assert forall|k: int| 0 <= k < im1.len() implies #[trigger] c.image_centroid[k] == (im1[k] + im2[k]) / 2 by {
        assert(im1[k] * (2 - 1) == im1[k]);
        assert((im1[k] + im2[k]) / 2 <= u64::MAX);
    }
}

/// If some cluster's fused score reaches the combined threshold, with
/// equality enough, then a best cluster exists and scores at least as high.
pub proof fn lemma_qualifying_cluster_found(
    cfg: ClusterConfig,
    t: Seq<u64>,
    im: Seq<u64>,
    cs: Seq<ClusterModel>,
    n: int,
    k: int,
)
    requires
        0 <= k < n <= cs.len(),
        fused_score(cfg, t, im, cs[k]) >= cfg.combined_threshold_spec(),
    ensures
        best_cluster(cfg, t, im, cs, n) matches Some(b) && fused_score(cfg, t, im, cs[b])
            >= fused_score(cfg, t, im, cs[k]),
    decreases n,
{
    if k < n - 1 {
        lemma_qualifying_cluster_found(cfg, t, im, cs, n - 1, k);
    }
}

/// A document whose fused score against the only cluster equals the
/// combined threshold exactly joins that cluster.
pub proof fn lemma_threshold_inclusive(
    cfg: ClusterConfig,
    cs: Seq<ClusterModel>,
    idx: usize,
    t: Seq<u64>,
    im: Seq<u64>,
)
    requires
        cs.len() == 1,
        fused_score(cfg, t, im, cs[0]) == cfg.combined_threshold_spec(),
    ensures
        assign(cfg, cs, idx, t, im) == seq![joined(cs[0], idx, t, im)],
{
    lemma_qualifying_cluster_found(cfg, t, im, cs, 1, 0);
    lemma_best_in_range(cfg, t, im, cs, 1);
    assert(best_cluster(cfg, t, im, cs, cs.len() as int) == Some(0int));
    assert(cs.update(0, joined(cs[0], idx, t, im)) =~= seq![joined(cs[0], idx, t, im)]);
}

} // verus!
