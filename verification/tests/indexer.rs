use gaoya::minhash::MinHashIndex;
use monotextor_utils::cluster::{read_cluster_body, render_query_record};
use monotextor_utils::dedup::DedupFilter;
use monotextor_utils::indexer::{DocIndex, IndexError, Indexer};
use monotextor_utils::minhash_processor::Tokenization;

fn new_indexer(num_bands: usize, band_width: usize, threshold: f64) -> Indexer {
    let index = DocIndex { inner: MinHashIndex::new_index(num_bands, band_width, threshold) };
    Indexer::new(index, Tokenization::Whitespace, 0, 20000, 1000)
}

fn doc(id: usize, text: &str) -> Vec<u8> {
    format!("{{\"id\":{},\"text\":\"{}\"}}", id, text).into_bytes()
}

#[test]
fn two_identical_documents_form_one_cluster() {
    let mut indexer = new_indexer(17, 15, 0.8);
    let batch = vec![
        doc(0, "a page of web text repeated verbatim in the crawl"),
        doc(1, "a page of web text repeated verbatim in the crawl"),
    ];
    let mut global_id = 0;
    indexer.index_batch(&batch, &mut global_id).unwrap();
    assert_eq!(global_id, 2);

    let uf = indexer.find_clusters(2);
    assert_eq!(uf.parents, vec![0, 0]);

    // filter with cluster sizes keeps one record carrying the size
    let mut filter = DedupFilter::new(uf, false, true, false);
    let out0 = filter.filter_line(&batch[0]).unwrap().unwrap();
    assert!(out0.ends_with(b",\"cluster_size\":2}"));
    assert_eq!(filter.filter_line(&batch[1]).unwrap(), None);
    assert!(filter.finish().is_ok());
}

#[test]
fn disjoint_documents_stay_apart() {
    let mut indexer = new_indexer(17, 15, 0.8);
    let batch = vec![
        doc(0, "completely original words on gardening and soil quality"),
        doc(1, "a treatise about compilers register allocation and liveness"),
        doc(2, "recipes for bread yeast flour hydration and long proofing"),
    ];
    let mut global_id = 0;
    indexer.index_batch(&batch, &mut global_id).unwrap();
    let uf = indexer.find_clusters(3);
    assert_eq!(uf.parents, vec![0, 1, 2]);

    let mut filter = DedupFilter::new(uf, false, false, false);
    for line in &batch {
        assert!(filter.filter_line(line).unwrap().is_some());
    }
    assert!(filter.finish().is_ok());
    assert_eq!(filter.num_unique, 3);
}

#[test]
fn query_mode_discard_records_collapse_the_cluster() {
    let mut indexer = new_indexer(17, 15, 0.8);
    let text = "three mutually similar documents with the same text body";
    let batch = vec![doc(0, text), doc(1, text), doc(2, text)];
    let mut global_id = 0;
    indexer.index_batch(&batch, &mut global_id).unwrap();

    // query mode with a duplicate threshold of 2 emits DISCARD records
    let results = indexer.query_batch(&batch).unwrap();
    let mut records: Vec<Vec<u8>> = Vec::new();
    for ids in &results {
        assert_eq!(ids, &vec![0, 1, 2]);
        records.push(render_query_record(ids, 2));
    }
    assert_eq!(records[0], b"DISCARD".to_vec());

    // the cluster reader unions 0 with 1 and 0 with 2
    let uf = read_cluster_body(3, &records).unwrap();
    assert_eq!(uf.parents, vec![0, 0, 0]);

    // only document 0 survives the filter
    let mut filter = DedupFilter::new(uf, false, false, false);
    assert!(filter.filter_line(&batch[0]).unwrap().is_some());
    assert!(filter.filter_line(&batch[1]).unwrap().is_none());
    assert!(filter.filter_line(&batch[2]).unwrap().is_none());
    assert!(filter.finish().is_ok());
}

#[test]
fn query_results_are_sorted_ascending() {
    let mut indexer = new_indexer(8, 8, 0.5);
    let text = "identical content for every single document here";
    let batch: Vec<Vec<u8>> = (0..5).map(|i| doc(i, text)).collect();
    let mut global_id = 0;
    indexer.index_batch(&batch, &mut global_id).unwrap();
    let results = indexer.query_batch(&batch).unwrap();
    for ids in &results {
        assert_eq!(ids, &vec![0, 1, 2, 3, 4]);
    }
}

#[test]
fn removed_ids_no_longer_match() {
    let mut indexer = new_indexer(8, 8, 0.5);
    let text = "identical content for every single document here";
    let batch: Vec<Vec<u8>> = (0..3).map(|i| doc(i, text)).collect();
    let mut global_id = 0;
    indexer.index_batch(&batch, &mut global_id).unwrap();
    indexer.remove_ids(&vec![1]);
    let results = indexer.query_batch(&batch).unwrap();
    assert_eq!(results[0], vec![0, 2]);
}

#[test]
fn over_threshold_results_feed_the_blocklist() {
    // a duplicate threshold of 2: every probe of the repeated text overflows
    let mut indexer = Indexer::new(
        DocIndex { inner: MinHashIndex::new_index(8, 8, 0.5) },
        Tokenization::Whitespace,
        0,
        20000,
        2,
    );
    let text = "identical content for every single document here";
    let batch: Vec<Vec<u8>> = (0..3)
        .map(|i| doc(i, text))
        .chain(std::iter::once(doc(3, "something else entirely about gardens")))
        .collect();
    let mut global_id = 0;
    indexer.index_batch(&batch, &mut global_id).unwrap();
    let results = indexer.query_batch(&batch).unwrap();
    let blocked = indexer.over_threshold_ids(&results);
    assert_eq!(blocked, vec![0, 1, 2, 0, 1, 2, 0, 1, 2]);
    indexer.remove_ids(&blocked);
    let after = indexer.query_batch(&batch).unwrap();
    assert_eq!(after[0], Vec::<usize>::new());
    assert_eq!(after[3], vec![3]);
}

#[test]
fn malformed_documents_abort_the_batch() {
    let mut indexer = new_indexer(8, 8, 0.5);
    let batch = vec![doc(0, "fine"), b"{broken".to_vec()];
    let mut global_id = 0;
    assert_eq!(indexer.index_batch(&batch, &mut global_id), Err(IndexError::BadDocument));
    assert_eq!(global_id, 0);
}

#[test]
fn ids_continue_across_batches() {
    let mut indexer = new_indexer(8, 8, 0.5);
    let text = "identical content for every single document here";
    let mut global_id = 0;
    indexer.index_batch(&vec![doc(0, text), doc(1, text)], &mut global_id).unwrap();
    assert_eq!(global_id, 2);
    indexer.index_batch(&vec![doc(2, text)], &mut global_id).unwrap();
    assert_eq!(global_id, 3);
    let uf = indexer.find_clusters(3);
    assert_eq!(uf.parents, vec![0, 0, 0]);
}
