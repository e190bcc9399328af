use monotextor_utils::cluster::{
    parse_cluster_header, read_cluster_body, render_cluster_file, render_query_record,
    tokenize, ClusterError,
};
use monotextor_utils::unionfind::UnionFind;

fn lines(raw: &[&str]) -> Vec<Vec<u8>> {
    raw.iter().map(|s| s.as_bytes().to_vec()).collect()
}

#[test]
fn header_takes_first_token() {
    assert_eq!(parse_cluster_header(&b"3".to_vec()), Ok(3));
    assert_eq!(parse_cluster_header(&b"42 extra tokens".to_vec()), Ok(42));
    assert_eq!(parse_cluster_header(&b"  7\t".to_vec()), Ok(7));
}

#[test]
fn header_rejects_junk() {
    assert_eq!(parse_cluster_header(&b"".to_vec()), Err(ClusterError::BadHeader));
    assert_eq!(parse_cluster_header(&b"x 3".to_vec()), Err(ClusterError::BadHeader));
    assert_eq!(parse_cluster_header(&b"-1".to_vec()), Err(ClusterError::BadHeader));
}

#[test]
fn tokenize_splits_on_spaces_and_tabs() {
    let toks = tokenize(&b" a\tbb  c ".to_vec());
    let toks: Vec<&[u8]> = toks.iter().map(|t| t.as_slice()).collect();
    assert_eq!(toks, vec![b"a".as_slice(), b"bb".as_slice(), b"c".as_slice()]);
}

#[test]
fn parents_form_is_read_directly() {
    let uf = read_cluster_body(2, &lines(&["0 0"])).unwrap();
    assert_eq!(uf.parents, vec![0, 0]);
}

#[test]
fn parents_form_longer() {
    let uf = read_cluster_body(5, &lines(&["0 0 2 2 4"])).unwrap();
    assert_eq!(uf.parents, vec![0, 0, 2, 2, 4]);
}

#[test]
fn discard_records_union_with_document_zero() {
    let uf = read_cluster_body(3, &lines(&["DISCARD", "DISCARD", "DISCARD"])).unwrap();
    assert_eq!(uf.parents, vec![0, 0, 0]);
}

#[test]
fn query_records_union_with_their_document() {
    let uf = read_cluster_body(3, &lines(&["0 1", "", ""])).unwrap();
    assert_eq!(uf.parents, vec![0, 0, 2]);
}

#[test]
fn discard_ends_its_record() {
    // ids before the DISCARD are honored, everything after it is ignored
    let mut uf = read_cluster_body(4, &lines(&["", "2 DISCARD 3", "", ""])).unwrap();
    uf.flatten();
    assert_eq!(uf.parents, vec![0, 0, 0, 3]);
}

#[test]
fn tokens_after_discard_need_not_be_numeric() {
    let uf = read_cluster_body(2, &lines(&["DISCARD x", ""])).unwrap();
    assert_eq!(uf.parents, vec![0, 1]);
}

#[test]
fn bad_token_is_rejected() {
    assert_eq!(
        read_cluster_body(3, &lines(&["0 x", "", ""])).err(),
        Some(ClusterError::BadToken)
    );
    // an id at or past the record count is invalid too
    assert_eq!(
        read_cluster_body(3, &lines(&["0 3", "", ""])).err(),
        Some(ClusterError::BadToken)
    );
}

#[test]
fn too_many_records_is_rejected() {
    assert_eq!(
        read_cluster_body(2, &lines(&["0", "1", "0"])).err(),
        Some(ClusterError::RecordOutOfRange)
    );
}

#[test]
fn empty_body_keeps_identity() {
    let uf = read_cluster_body(3, &lines(&[])).unwrap();
    assert_eq!(uf.parents, vec![0, 1, 2]);
}

#[test]
fn render_writes_header_and_parents() {
    let mut uf = UnionFind::new(3);
    uf.union(0, 2);
    let out = render_cluster_file(&uf);
    assert_eq!(out, b"3\n0 1 0 \n".to_vec());
}

#[test]
fn render_then_read_round_trips() {
    let mut uf = UnionFind::new(4);
    uf.union(0, 1);
    uf.union(2, 3);
    uf.flatten();
    let out = render_cluster_file(&uf);
    let mut body: Vec<Vec<u8>> = Vec::new();
    let mut it = out.split(|b| *b == b'\n');
    let header = it.next().unwrap().to_vec();
    for part in it {
        if !part.is_empty() {
            body.push(part.to_vec());
        }
    }
    let n = parse_cluster_header(&header).unwrap();
    assert_eq!(n, 4);
    let reread = read_cluster_body(n, &body).unwrap();
    assert_eq!(reread.parents, uf.parents);
}

#[test]
fn query_record_lists_sorted_ids() {
    assert_eq!(render_query_record(&vec![1, 2], 3), b"1 2".to_vec());
    assert_eq!(render_query_record(&vec![7], 3), b"7".to_vec());
    assert_eq!(render_query_record(&vec![], 3), b"".to_vec());
}

#[test]
fn query_record_over_threshold_is_discard() {
    assert_eq!(render_query_record(&vec![0, 1, 2], 2), b"DISCARD".to_vec());
    assert_eq!(render_query_record(&vec![0, 1], 2), b"DISCARD".to_vec());
}
