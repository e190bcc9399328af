use monotextor_utils::cluster::read_cluster_body;
use monotextor_utils::dedup::{
    compute_cluster_sizes, rewrite_id, splice_cluster_size, DedupError, DedupFilter,
};
use monotextor_utils::unionfind::UnionFind;

#[test]
fn id_rewriting_keeps_everything_else() {
    let line = b"{\"id\":42,\"text\":\"hi\",\"u\":\"x\"}".to_vec();
    let out = rewrite_id(&line, 3).unwrap();
    assert_eq!(out, b"{\"id\":3,\"text\":\"hi\",\"u\":\"x\"}".to_vec());
}

#[test]
fn id_rewriting_demands_the_prefix() {
    assert!(rewrite_id(&b"{\"text\":\"hi\"}".to_vec(), 1).is_none());
    assert!(rewrite_id(&b"{\"id\":,\"a\":1}".to_vec(), 1).is_none());
    assert!(rewrite_id(&b"{\"id\":12}".to_vec(), 1).is_none());
}

#[test]
fn splice_inserts_before_closing_brace() {
    let line = b"{\"a\":1}".to_vec();
    let out = splice_cluster_size(&line, 2).unwrap();
    assert_eq!(out, b"{\"a\":1,\"cluster_size\":2}".to_vec());
}

#[test]
fn splice_demands_closing_brace() {
    assert!(splice_cluster_size(&b"{\"a\":1}x".to_vec(), 2).is_none());
    assert!(splice_cluster_size(&b"".to_vec(), 2).is_none());
}

#[test]
fn cluster_sizes_count_members() {
    let parents = vec![0, 0, 2, 0, 2];
    let counts = compute_cluster_sizes(&parents);
    assert_eq!(counts, vec![3, 0, 2, 0, 0]);
}

#[test]
fn two_identical_documents_keep_one_with_size() {
    // cluster file of two documents in one cluster
    let uf = read_cluster_body(2, &vec![b"0 0".to_vec()]).unwrap();
    let mut filter = DedupFilter::new(uf, false, true, false);
    let line0 = b"{\"id\":0,\"text\":\"same\"}".to_vec();
    let line1 = b"{\"id\":1,\"text\":\"same\"}".to_vec();
    let out0 = filter.filter_line(&line0).unwrap();
    let out1 = filter.filter_line(&line1).unwrap();
    assert_eq!(out0, Some(b"{\"id\":0,\"text\":\"same\",\"cluster_size\":2}".to_vec()));
    assert_eq!(out1, None);
    assert_eq!(filter.num_unique, 1);
    assert!(filter.finish().is_ok());
}

#[test]
fn disjoint_documents_all_survive() {
    let uf = read_cluster_body(3, &vec![b"0 1 2".to_vec()]).unwrap();
    let mut filter = DedupFilter::new(uf, false, false, false);
    for i in 0..3 {
        let line = format!("{{\"id\":{},\"text\":\"t{}\"}}", i, i).into_bytes();
        let out = filter.filter_line(&line).unwrap();
        assert_eq!(out, Some(line));
    }
    assert_eq!(filter.num_unique, 3);
    assert!(filter.finish().is_ok());
}

#[test]
fn discard_clusters_keep_only_document_zero() {
    let uf =
        read_cluster_body(3, &vec![b"DISCARD".to_vec(), b"DISCARD".to_vec(), b"DISCARD".to_vec()])
            .unwrap();
    let mut filter = DedupFilter::new(uf, false, false, false);
    let mut kept = 0;
    for i in 0..3 {
        let line = format!("{{\"id\":{},\"text\":\"t\"}}", i).into_bytes();
        if filter.filter_line(&line).unwrap().is_some() {
            kept += 1;
            assert_eq!(i, 0);
        }
    }
    assert_eq!(kept, 1);
    assert!(filter.finish().is_ok());
}

#[test]
fn print_duplicates_emits_the_other_side() {
    let uf = read_cluster_body(2, &vec![b"0 0".to_vec()]).unwrap();
    let mut filter = DedupFilter::new(uf, true, false, false);
    let line0 = b"{\"id\":0}".to_vec();
    let line1 = b"{\"id\":1}".to_vec();
    assert_eq!(filter.filter_line(&line0).unwrap(), None);
    assert_eq!(filter.filter_line(&line1).unwrap(), Some(line1.clone()));
}

#[test]
fn reassigned_ids_count_survivors_from_one() {
    // three surviving documents; the third gets the 1-based id 3 and is
    // otherwise byte-identical
    let uf = UnionFind::new(3);
    let mut filter = DedupFilter::new(uf, false, false, true);
    let line0 = b"{\"id\":40,\"text\":\"a\"}".to_vec();
    let line1 = b"{\"id\":41,\"text\":\"b\"}".to_vec();
    let line2 = b"{\"id\":42,\"text\":\"hi\",\"u\":\"x\"}".to_vec();
    assert_eq!(filter.filter_line(&line0).unwrap(), Some(b"{\"id\":1,\"text\":\"a\"}".to_vec()));
    assert_eq!(filter.filter_line(&line1).unwrap(), Some(b"{\"id\":2,\"text\":\"b\"}".to_vec()));
    assert_eq!(
        filter.filter_line(&line2).unwrap(),
        Some(b"{\"id\":3,\"text\":\"hi\",\"u\":\"x\"}".to_vec())
    );
}

#[test]
fn dropped_documents_do_not_advance_the_new_ids() {
    let uf = read_cluster_body(3, &vec![b"0 0 2".to_vec()]).unwrap();
    let mut filter = DedupFilter::new(uf, false, false, true);
    let line0 = b"{\"id\":40,\"text\":\"a\"}".to_vec();
    let line1 = b"{\"id\":41,\"text\":\"a\"}".to_vec();
    let line2 = b"{\"id\":42,\"text\":\"c\"}".to_vec();
    assert_eq!(filter.filter_line(&line0).unwrap(), Some(b"{\"id\":1,\"text\":\"a\"}".to_vec()));
    assert_eq!(filter.filter_line(&line1).unwrap(), None);
    assert_eq!(filter.filter_line(&line2).unwrap(), Some(b"{\"id\":2,\"text\":\"c\"}".to_vec()));
}

#[test]
fn missing_brace_is_fatal_when_splicing() {
    let uf = UnionFind::new(1);
    let mut filter = DedupFilter::new(uf, false, true, false);
    assert_eq!(
        filter.filter_line(&b"{\"id\":0,\"text\":\"a\"}x".to_vec()),
        Err(DedupError::MissingClosingBrace)
    );
}

#[test]
fn bad_id_prefix_is_fatal_when_reassigning() {
    let uf = UnionFind::new(1);
    let mut filter = DedupFilter::new(uf, false, false, true);
    assert_eq!(
        filter.filter_line(&b"{\"text\":\"a\"}".to_vec()),
        Err(DedupError::BadIdPrefix)
    );
}

#[test]
fn extra_lines_are_fatal() {
    let uf = UnionFind::new(1);
    let mut filter = DedupFilter::new(uf, false, false, false);
    let line = b"{\"id\":0}".to_vec();
    assert!(filter.filter_line(&line).is_ok());
    assert_eq!(filter.filter_line(&line), Err(DedupError::TooManyRecords));
}

#[test]
fn missing_lines_fail_the_final_check() {
    let uf = UnionFind::new(2);
    let mut filter = DedupFilter::new(uf, false, false, false);
    let line = b"{\"id\":0}".to_vec();
    assert!(filter.filter_line(&line).is_ok());
    assert_eq!(filter.finish(), Err(DedupError::CountMismatch));
}
