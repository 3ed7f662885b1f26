use page_cluster::clustering::{cluster_documents, cluster_features, update_centroid, Cluster, ClusterConfig};
use page_cluster::document::Document;
use page_cluster::image_processor::ImageFeatures;
use page_cluster::similarity::{HIST_SCALE, SCALE};
use page_cluster::tier::{process_tier, process_tier_with};
use page_cluster::vectorizer::TextFeatures;

fn doc(name: &str, text: &str) -> Document {
    Document { filename: name.to_string(), text: text.to_string(), screenshot: format!("{}.png", name) }
}

fn text(name: &str, v: Vec<u64>) -> TextFeatures {
    TextFeatures { filename: name.to_string(), tfidf_vector: v, dom_tree_hash: 0 }
}

fn image(v: Vec<u64>) -> ImageFeatures {
    ImageFeatures { color_histogram: v }
}

fn text_only(threshold: u64) -> ClusterConfig {
    ClusterConfig { text_weight: SCALE, image_weight: 0, text_threshold: threshold, image_threshold: 0 }
}

fn words(ws: &[&str]) -> Vec<String> {
    ws.iter().map(|w| w.to_string()).collect()
}

#[test]
fn standard_configuration() {
    let c = ClusterConfig::standard();
    assert_eq!((c.text_weight, c.image_weight), (700_000, 300_000));
    assert_eq!(c.combined_threshold(), 745_000_000_000_000_000);
}

#[test]
fn scenario_text_only_join() {
    let docs = vec![doc("doc1", "a b"), doc("doc2", "a b c")];
    let tf = vec![text("doc1", vec![500_000, 500_000, 0]), text("doc2", vec![333_333, 333_333, 333_333])];
    let im = vec![image(vec![1, 0]), image(vec![0, 1])];
    let cfg = text_only(700_000);
    let clusters = cluster_features(&tf, &im, &cfg);
    assert_eq!(clusters.len(), 1);
    assert_eq!(clusters[0].members, vec![0, 1]);
    assert_eq!(clusters[0].text_centroid, vec![416_666, 416_666, 166_666]);
    let names = cluster_documents(&docs, &tf, &im, &cfg);
    assert_eq!(names, vec![words(&["doc1", "doc2"])]);
}

#[test]
fn threshold_boundary_is_inclusive() {
    let docs = vec![doc("doc1", ""), doc("doc2", "")];
    let tf = vec![text("doc1", vec![500_000, 500_000, 0]), text("doc2", vec![333_333, 333_333, 333_333])];
    let im = vec![image(vec![]), image(vec![])];
    // the fused score is exactly 816_496 units of similarity
    assert_eq!(cluster_documents(&docs, &tf, &im, &text_only(816_496)).len(), 1);
    assert_eq!(cluster_documents(&docs, &tf, &im, &text_only(816_497)).len(), 2);
}

#[test]
fn image_similarity_alone_can_join() {
    let docs = vec![doc("d1", ""), doc("d2", "")];
    let tf = vec![text("d1", vec![SCALE, 0]), text("d2", vec![0, SCALE])];
    let im = vec![image(vec![HIST_SCALE, 0]), image(vec![HIST_SCALE, 0])];
    let cfg = ClusterConfig { text_weight: 500_000, image_weight: 500_000, text_threshold: 900_000, image_threshold: 0 };
    // fused: 0.5 * 0 + 0.5 * 1 = 0.5 >= 0.45
    assert_eq!(cluster_documents(&docs, &tf, &im, &cfg), vec![words(&["d1", "d2"])]);
}

#[test]
fn dissimilar_documents_get_own_clusters() {
    let docs = vec![doc("d1", ""), doc("d2", ""), doc("d3", "")];
    let tf = vec![text("d1", vec![SCALE, 0]), text("d2", vec![0, SCALE]), text("d3", vec![SCALE, 0])];
    let im = vec![image(vec![HIST_SCALE, 0]), image(vec![0, HIST_SCALE]), image(vec![HIST_SCALE, 0])];
    let r = cluster_documents(&docs, &tf, &im, &ClusterConfig::standard());
    assert_eq!(r, vec![words(&["d1", "d3"]), words(&["d2"])]);
}

#[test]
fn ties_go_to_the_earliest_cluster() {
    let docs = vec![doc("d1", ""), doc("d2", ""), doc("d3", "")];
    let tf = vec![text("d1", vec![SCALE, 0]), text("d2", vec![0, SCALE]), text("d3", vec![SCALE, SCALE])];
    let im = vec![image(vec![]), image(vec![]), image(vec![])];
    let r = cluster_documents(&docs, &tf, &im, &text_only(700_000));
    assert_eq!(r, vec![words(&["d1", "d3"]), words(&["d2"])]);
}

#[test]
fn no_documents_no_clusters() {
    let r = cluster_documents(&Vec::new(), &Vec::new(), &Vec::new(), &ClusterConfig::standard());
    assert!(r.is_empty());
}

#[test]
fn clustering_is_deterministic() {
    let tf = vec![text("d1", vec![SCALE, 3]), text("d2", vec![5, SCALE]), text("d3", vec![SCALE, 9])];
    let im = vec![image(vec![HIST_SCALE, 0]), image(vec![0, HIST_SCALE]), image(vec![900_000_000_000, 100_000_000_000])];
    let cfg = ClusterConfig::standard();
    let a = cluster_features(&tf, &im, &cfg);
    let b = cluster_features(&tf, &im, &cfg);
    assert_eq!(a.len(), b.len());
    for (x, y) in a.iter().zip(b.iter()) {
        assert_eq!(x.members, y.members);
        assert_eq!(x.text_centroid, y.text_centroid);
        assert_eq!(x.image_centroid, y.image_centroid);
    }
}

#[test]
fn centroid_after_second_member_is_mean() {
    let mut c = Cluster { text_centroid: vec![100, 7, 0], image_centroid: vec![SCALE, 0], members: vec![0, 1] };
    update_centroid(&mut c, &vec![300, 8, 1], &vec![0, SCALE]);
    assert_eq!(c.text_centroid, vec![200, 7, 0]);
    assert_eq!(c.image_centroid, vec![500_000, 500_000]);
    assert_eq!(c.members, vec![0, 1]);
}

#[test]
fn centroid_of_new_cluster_is_its_vector() {
    let tf = vec![text("d1", vec![123, 456])];
    let im = vec![image(vec![789])];
    let c = cluster_features(&tf, &im, &ClusterConfig::standard());
    assert_eq!(c.len(), 1);
    assert_eq!(c[0].text_centroid, vec![123, 456]);
    assert_eq!(c[0].image_centroid, vec![789]);
    assert_eq!(c[0].members, vec![0]);
}

#[test]
fn tier_with_undecodable_screenshot() {
    let docs = vec![doc("p1", "apple banana"), doc("p2", "apple banana"), doc("p3", "apple banana cherry")];
    let white = vec![255u8; 12];
    let decoded = vec![Some(white.clone()), None, Some(white)];
    let r = process_tier(&docs, &decoded, &ClusterConfig::standard()).unwrap();
    assert_eq!(r.skipped, vec![1]);
    let clustered: usize = r.clusters.iter().map(|c| c.len()).sum();
    assert_eq!(clustered, 2);
    assert!(r.clusters.iter().all(|c| !c.contains(&"p2".to_string())));
}

#[test]
fn tier_where_every_screenshot_fails() {
    let docs = vec![doc("p1", "x"), doc("p2", "y")];
    let r = process_tier_with(&docs, &words(&["x", "y"]), &vec![None, None], &ClusterConfig::standard()).unwrap();
    assert!(r.clusters.is_empty());
    assert_eq!(r.skipped, vec![0, 1]);
}

#[test]
fn tier_partitions_documents() {
    let docs = vec![doc("p1", "red"), doc("p2", "blue"), doc("p3", "red"), doc("p4", "green")];
    let black = vec![0u8; 3];
    let decoded = vec![Some(black.clone()), Some(black.clone()), Some(black), None];
    let r = process_tier_with(&docs, &words(&["blue", "green", "red"]), &decoded, &ClusterConfig::standard()).unwrap();
    assert_eq!(r.clusters, vec![words(&["p1", "p3"]), words(&["p2"])]);
    assert_eq!(r.skipped, vec![3]);
}
