use page_cluster::document::Document;
use page_cluster::image_processor::{compute_color_histogram, ImageFeatures};
use page_cluster::similarity::{cosine_similarity, histogram_similarity, isqrt, HIST_SCALE, SCALE};
use page_cluster::vectorizer::{build_vocabulary, build_vocabulary_with, compute_tfidf, tokenize, TextFeatures};

fn doc(name: &str, text: &str) -> Document {
    Document { filename: name.to_string(), text: text.to_string(), screenshot: format!("{}.png", name) }
}

fn words(ws: &[&str]) -> Vec<String> {
    ws.iter().map(|w| w.to_string()).collect()
}

#[test]
fn tokenize_splits_and_lowercases() {
    assert_eq!(tokenize("Hello, World! 42x--y"), words(&["hello", "world", "42x", "y"]));
}

#[test]
fn tokenize_empty_and_separators_only() {
    assert!(tokenize("").is_empty());
    assert!(tokenize(" ,.;-- ").is_empty());
}

#[test]
fn tokenize_keeps_unicode_letters() {
    assert_eq!(tokenize("Ärger über Öl"), words(&["ärger", "über", "öl"]));
}

#[test]
fn vocabulary_is_sorted_unique_without_stop_words() {
    let docs = vec![doc("d1", "the cat and the dog"), doc("d2", "Dog bird cat")];
    let v = build_vocabulary_with(&docs, &words(&["the", "and"]));
    assert_eq!(v, words(&["bird", "cat", "dog"]));
}

#[test]
fn vocabulary_drops_english_stop_words() {
    let docs = vec![doc("d1", "the zebra and the yak")];
    let v = build_vocabulary(&docs);
    assert_eq!(v, words(&["yak", "zebra"]));
}

#[test]
fn vocabulary_of_no_documents_is_empty() {
    assert!(build_vocabulary_with(&Vec::new(), &Vec::new()).is_empty());
}

#[test]
fn term_frequencies_over_vocabulary() {
    let vocab = words(&["a", "b", "c"]);
    assert_eq!(compute_tfidf(&words(&["a", "b"]), &vocab), vec![500_000, 500_000, 0]);
    assert_eq!(compute_tfidf(&words(&["a", "b", "c"]), &vocab), vec![333_333, 333_333, 333_333]);
    assert_eq!(compute_tfidf(&words(&["a", "a", "x", "b"]), &vocab), vec![500_000, 250_000, 0]);
}

#[test]
fn term_frequencies_of_empty_text_are_zero() {
    let vocab = words(&["a", "b"]);
    assert_eq!(compute_tfidf(&Vec::new(), &vocab), vec![0, 0]);
}

#[test]
fn text_features_from_document() {
    let vocab = words(&["a", "b", "c"]);
    let f = TextFeatures::from_document(&doc("d1", "A b"), &vocab);
    assert_eq!(f.filename, "d1");
    assert_eq!(f.tfidf_vector, vec![500_000, 500_000, 0]);
    assert_eq!(f.dom_tree_hash, seahash::hash(b"A b"));
    assert_ne!(f.dom_tree_hash, TextFeatures::from_document(&doc("d1", "A c"), &vocab).dom_tree_hash);
}

#[test]
fn split_alphanumeric_keeps_case() {
    assert_eq!(page_cluster::vectorizer::split_alphanumeric("Ab_c d"), words(&["Ab", "c", "d"]));
}

#[test]
fn integer_square_root() {
    assert_eq!(isqrt(0), 0);
    assert_eq!(isqrt(1), 1);
    assert_eq!(isqrt(15), 3);
    assert_eq!(isqrt(16), 4);
    assert_eq!(isqrt(u128::MAX), u64::MAX);
    assert_eq!(isqrt(500_000_000_000u128 * 333_332_666_667u128), 408_247_882_215);
}

#[test]
fn cosine_of_scenario_vectors() {
    let a = vec![500_000, 500_000, 0];
    let b = vec![333_333, 333_333, 333_333];
    assert_eq!(cosine_similarity(&a, &b), 816_496);
}

#[test]
fn cosine_with_itself_is_one() {
    let v = vec![3, 0, 999_999, 12];
    assert_eq!(cosine_similarity(&v, &v), SCALE as u128);
}

#[test]
fn cosine_with_zero_is_zero() {
    let v = vec![3, 7, 1];
    let z = vec![0, 0, 0];
    assert_eq!(cosine_similarity(&v, &z), 0);
    assert_eq!(cosine_similarity(&z, &v), 0);
    assert_eq!(cosine_similarity(&z, &z), 0);
}

#[test]
fn histogram_intersection_values() {
    let h = vec![250_000, 750_000, 0];
    let g = vec![500_000, 0, 500_000];
    assert_eq!(histogram_similarity(&h, &h), SCALE);
    assert_eq!(histogram_similarity(&h, &g), 250_000);
}

#[test]
fn luminance_buckets_and_normalization() {
    // white, a dark pixel, a mid pixel, white again
    let rgb = vec![255, 255, 255, 10, 20, 30, 200, 100, 50, 255, 255, 255];
    let h = compute_color_histogram(&rgb);
    assert_eq!(h.len(), 256);
    assert_eq!(h[255], 500_000_000_000);
    assert_eq!(h[18], 250_000_000_000);
    assert_eq!(h[124], 250_000_000_000);
    assert_eq!(h.iter().sum::<u64>(), HIST_SCALE);
}

#[test]
fn histogram_of_no_pixels_is_zero() {
    let h = compute_color_histogram(&Vec::new());
    assert_eq!(h, vec![0u64; 256]);
}

#[test]
fn histogram_sums_to_one_within_rounding() {
    let mut rgb = Vec::new();
    for i in 0..777u32 {
        rgb.push((i * 37 % 256) as u8);
        rgb.push((i * 11 % 256) as u8);
        rgb.push((i * 101 % 256) as u8);
    }
    let f = ImageFeatures::from_rgb(&rgb);
    let total: u64 = f.color_histogram.iter().sum();
    assert!(total <= HIST_SCALE && total + 256 > HIST_SCALE);
    assert!((HIST_SCALE - total) as f64 / HIST_SCALE as f64 <= 1e-9);
}

#[test]
fn histogram_of_three_buckets_sums_to_one() {
    let rgb = vec![0, 0, 0, 4, 0, 0, 7, 0, 0];
    let h = compute_color_histogram(&rgb);
    assert_eq!(&h[0..3], &[333_333_333_333, 333_333_333_333, 333_333_333_333]);
    let total: u64 = h.iter().sum();
    assert!(((total as f64 / HIST_SCALE as f64) - 1.0).abs() <= 1e-9);
}

#[test]
fn vocabulary_uses_the_english_list() {
    let en: Vec<String> = stop_words::get("en").iter().map(|w| w.to_string()).collect();
    let docs = vec![doc("d1", "the zebra and the yak"), doc("d2", "yak of a zebra")];
    assert_eq!(build_vocabulary(&docs), build_vocabulary_with(&docs, &en));
    let reordered = vec![doc("d2", "yak of a zebra"), doc("d1", "the zebra and the yak")];
    assert_eq!(build_vocabulary(&docs), build_vocabulary(&reordered));
}
