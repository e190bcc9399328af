use fastbloom_rs::FilterBuilder;
use monotextor_utils::bloom::{BloomDedupe, BloomError};

fn doc(i: usize, t: usize) -> Vec<u8> {
    format!("{{\"id\":{},\"text\":\"text number {}\"}}", i, t).into_bytes()
}

fn run_pass(lines: &[Vec<u8>], expected_elements: u64) -> Vec<Vec<u8>> {
    let filter = FilterBuilder::new(expected_elements, 0.001).build_bloom_filter();
    let mut dedupe = BloomDedupe::new(filter);
    let mut kept = Vec::new();
    for line in lines {
        if let Some(out) = dedupe.process_line(line).unwrap() {
            kept.push(out);
        }
    }
    assert_eq!(dedupe.num_docs, lines.len());
    assert_eq!(dedupe.kept_docs, kept.len());
    kept
}

#[test]
fn bloom_round_trip() {
    // 1,000 inputs with 200 exact dupes: inputs 800..999 repeat the texts
    // of inputs 0..199
    let lines: Vec<Vec<u8>> = (0..1000).map(|i| doc(i, i % 800)).collect();
    let kept = run_pass(&lines, 1000);
    assert_eq!(kept.len(), 800);
    // first-seen wins: the output is the prefix of first occurrences
    assert_eq!(kept, lines[..800].to_vec());
    // running the pass again on its own output discards nothing further
    let again = run_pass(&kept, 1000);
    assert_eq!(again.len(), 800);
    assert_eq!(again, kept);
}

#[test]
fn equal_texts_never_both_survive() {
    let lines = vec![doc(0, 7), doc(1, 7), doc(2, 8), doc(3, 7)];
    let kept = run_pass(&lines, 100);
    assert_eq!(kept, vec![doc(0, 7), doc(2, 8)]);
}

#[test]
fn malformed_documents_are_fatal() {
    let filter = FilterBuilder::new(10, 0.001).build_bloom_filter();
    let mut dedupe = BloomDedupe::new(filter);
    assert_eq!(dedupe.process_line(&b"nope".to_vec()), Err(BloomError::BadDocument));
    assert_eq!(dedupe.num_docs, 0);
}
