use monotextor_utils::minhash_processor::{MinHashProcessor, Tokenization};
use monotextor_utils::DocumentText;

#[test]
fn signature_has_one_entry_per_permutation() {
    let p = MinHashProcessor::new(255, Tokenization::Whitespace, 0);
    let sig = p.create_signature("some web text to be hashed");
    assert_eq!(sig.len(), 255);
}

#[test]
fn signatures_are_deterministic() {
    let a = MinHashProcessor::new(128, Tokenization::Whitespace, 0);
    let b = MinHashProcessor::new(128, Tokenization::Whitespace, 0);
    let text = "the quick brown fox jumps over the lazy dog";
    assert_eq!(a.create_signature(text), b.create_signature(text));
}

#[test]
fn empty_text_gives_the_no_value_signature() {
    let p = MinHashProcessor::new(64, Tokenization::Whitespace, 0);
    assert_eq!(p.create_signature(""), vec![0u32; 64]);
}

#[test]
fn whitespace_mode_is_case_insensitive() {
    let p = MinHashProcessor::new(128, Tokenization::Whitespace, 0);
    assert_eq!(p.create_signature("Hello World"), p.create_signature("hello world"));
}

#[test]
fn char_mode_reads_the_raw_text() {
    let p = MinHashProcessor::new(128, Tokenization::Char, 3);
    assert_ne!(p.create_signature("Hello World!"), p.create_signature("hello world!"));
    assert_eq!(p.create_signature("abcdef"), p.create_signature("abcdef"));
}

#[test]
fn char_mode_windows_do_not_overlap() {
    // the trailing partial window is dropped, so these two agree
    let p = MinHashProcessor::new(128, Tokenization::Char, 3);
    assert_eq!(p.create_signature("abcdefgh"), p.create_signature("abcdefg"));
    assert_ne!(p.create_signature("abcdef"), p.create_signature("abcxef"));
}

#[test]
fn vectorizer_mode_differs_from_plain_tokens() {
    let w = MinHashProcessor::new(128, Tokenization::Whitespace, 0);
    let v = MinHashProcessor::new(128, Tokenization::Vectorizer, 0);
    let text = "one two three four five six seven";
    assert_ne!(w.create_signature(text), v.create_signature(text));
    let v2 = MinHashProcessor::new(128, Tokenization::Vectorizer, 0);
    assert_eq!(v.create_signature(text), v2.create_signature(text));
}

#[test]
fn similar_texts_share_most_of_the_signature() {
    let p = MinHashProcessor::new(256, Tokenization::Whitespace, 0);
    let a = p.create_signature("the quick brown fox jumps over the lazy dog today");
    let b = p.create_signature("the quick brown fox jumps over the lazy cat today");
    let matching = a.iter().zip(b.iter()).filter(|(x, y)| x == y).count();
    assert!(matching > 128, "only {} of 256 entries match", matching);
    let c = p.create_signature("entirely unrelated words about other topics");
    let matching_c = a.iter().zip(c.iter()).filter(|(x, y)| x == y).count();
    assert!(matching_c < 64, "{} of 256 entries match", matching_c);
}

#[test]
fn document_text_reads_only_the_text_field() {
    let doc = DocumentText::parse(&b"{\"id\":7,\"text\":\"hello\",\"u\":\"x\"}".to_vec()).unwrap();
    assert_eq!(doc.text, "hello");
    assert!(DocumentText::parse(&b"{\"id\":7}".to_vec()).is_none());
    assert!(DocumentText::parse(&b"not json".to_vec()).is_none());
    assert!(DocumentText::parse(&b"{\"text\":3}".to_vec()).is_none());
}
