use vstd::multiset::Multiset;
use vstd::prelude::*;

use crate::minhash_processor::{signature_spec, MinHashProcessor, Tokenization};
use crate::unionfind::{same_cluster, UnionFind};
use crate::DocumentText;

verus! {

/// The banded MinHash index over 32-bit signatures and dense document
/// ids: `gaoya::minhash::MinHashIndex`, held opaquely because its type
/// parameters carry that crate's trait bounds. The caller wraps an index
/// it created with `MinHashIndex::new_index`, choosing the band count,
/// the band width and the Jaccard threshold there.
#[verifier::external_body]
pub struct DocIndex {
    pub inner: gaoya::minhash::MinHashIndex<u32, usize, gaoya::minhash::HashSetContainer<usize>>,
}

/// What the index holds: each inserted id mapped to its signature.
pub uninterp spec fn mh_contents(idx: DocIndex) -> Map<usize, Seq<u32>>;

/// The index's signature length (bands times band width).
pub uninterp spec fn mh_num_hashes(idx: DocIndex) -> nat;

/// Whether the index's Jaccard estimate of the two signatures (the
/// fraction of equal entries) reaches its configured threshold.
pub uninterp spec fn mh_similar(idx: DocIndex, a: Seq<u32>, b: Seq<u32>) -> bool;

/// What a query of the index returns for a probe signature: the set of
/// inserted ids that share at least one band with the probe and whose
/// estimated Jaccard reaches the threshold. A function of the index value
/// and the probe alone.
pub uninterp spec fn mh_query_set(idx: DocIndex, probe: Seq<u32>) -> Set<usize>;

/// Every id the index holds has a signature of the index's length.
pub open spec fn mh_inv(idx: DocIndex) -> bool {
    forall|id: usize|
        mh_contents(idx).dom().contains(id) ==> (#[trigger] mh_contents(idx)[id]).len()
            == mh_num_hashes(idx)
}

/// Relies on `MinHashIndex::num_hashes`, which returns the fixed signature
/// length the index was created with.
#[verifier::external_body]
fn mh_num_hashes_exec(idx: &DocIndex) -> (r: usize)
    ensures
        r == mh_num_hashes(*idx),
{
    idx.inner.num_hashes()
}

/// Relies on `MinHashIndex::par_bulk_insert`: each id is mapped to its
/// signature; other entries, the signature length and the similarity
/// threshold are untouched. The method reads `signature[band]` slices, so
/// every signature must have the index's length, and pairing ids with
/// signatures requires equal counts.
#[verifier::external_body]
fn mh_bulk_insert(idx: &mut DocIndex, ids: Vec<usize>, sigs: Vec<Vec<u32>>)
    requires
        ids@.len() == sigs@.len(),
        forall|j: int| 0 <= j < sigs@.len() ==> (#[trigger] sigs@[j])@.len() == mh_num_hashes(
            *old(idx),
        ),
        forall|j: int, k: int| 0 <= j < k < ids@.len() ==> ids@[j] != ids@[k],
    ensures
        mh_num_hashes(*final(idx)) == mh_num_hashes(*old(idx)),
        forall|a: Seq<u32>, b: Seq<u32>| #[trigger]
            mh_similar(*final(idx), a, b) == mh_similar(*old(idx), a, b),
        forall|j: int|
            0 <= j < ids@.len() ==> mh_contents(*final(idx)).dom().contains(#[trigger] ids@[j])
                && mh_contents(*final(idx))[ids@[j]] == sigs@[j]@,
        forall|id: usize|
            !ids@.contains(id) ==> (mh_contents(*final(idx)).dom().contains(id)
                <==> mh_contents(*old(idx)).dom().contains(id)),
        forall|id: usize|
            !ids@.contains(id) && mh_contents(*old(idx)).dom().contains(id) ==> #[trigger] mh_contents(
                *final(idx),
            )[id] == mh_contents(*old(idx))[id],
{
    idx.inner.par_bulk_insert(ids, sigs)
}

/// Relies on `MinHashIndex::par_bulk_query` (one `query_owned` per probe):
/// each returned set holds exactly the ids of `mh_query_set`; a query set
/// holds only inserted ids whose stored signature is similar to the probe,
/// and it holds every id whose stored signature equals a probe similar to
/// itself, since identical band slices hash identically. Probes must have
/// the index's signature length.
#[verifier::external_body]
fn mh_bulk_query(idx: &DocIndex, sigs: &Vec<Vec<u32>>) -> (r: Vec<Vec<usize>>)
    requires
        mh_inv(*idx),
        forall|j: int| 0 <= j < sigs@.len() ==> (#[trigger] sigs@[j])@.len() == mh_num_hashes(
            *idx,
        ),
    ensures
        r@.len() == sigs@.len(),
        forall|q: int, e: usize|
            #![trigger r@[q]@.contains(e)]
            #![trigger mh_query_set(*idx, sigs@[q]@).contains(e)]
            0 <= q < r@.len() ==> (r@[q]@.contains(e) <==> mh_query_set(
                *idx,
                sigs@[q]@,
            ).contains(e)),
        forall|q: int, j: int, k: int|
            #![trigger r@[q]@[j], r@[q]@[k]]
            0 <= q < r@.len() && 0 <= j < k < r@[q]@.len() ==> r@[q]@[j] != r@[q]@[k],
        forall|q: int, e: usize|
            #![trigger r@[q]@.contains(e)]
            0 <= q < r@.len() && r@[q]@.contains(e) ==> mh_contents(*idx).dom().contains(e)
                && mh_similar(*idx, mh_contents(*idx)[e], sigs@[q]@),
        forall|q: int, e: usize|
            #![trigger r@[q]@.contains(e)]
            0 <= q < r@.len() && mh_contents(*idx).dom().contains(e) && mh_contents(*idx)[e]
                == sigs@[q]@ && mh_similar(*idx, sigs@[q]@, sigs@[q]@) ==> r@[q]@.contains(e),
{
    idx.inner.par_bulk_query(sigs).into_iter().map(|s| s.into_iter().collect()).collect()
}

/// Relies on `MinHashIndex::query_by_id_owned`: for an inserted id, the
/// query set of its stored signature; for an unknown id, nothing.
#[verifier::external_body]
fn mh_query_by_id(idx: &DocIndex, id: usize) -> (r: Vec<usize>)
    requires
        mh_inv(*idx),
    ensures
        mh_contents(*idx).dom().contains(id) ==> forall|e: usize|
            r@.contains(e) <==> mh_query_set(*idx, mh_contents(*idx)[id]).contains(e),
        !mh_contents(*idx).dom().contains(id) ==> r@.len() == 0,
        forall|e: usize| #[trigger]
            r@.contains(e) ==> mh_contents(*idx).dom().contains(e) && mh_similar(
                *idx,
                mh_contents(*idx)[e],
                mh_contents(*idx)[id],
            ),
{
    idx.inner.query_by_id_owned(&id).into_iter().collect()
}

/// Relies on `MinHashIndex::bulk_remove`: the listed ids leave the
/// contents; everything else is untouched.
#[verifier::external_body]
fn mh_bulk_remove(idx: &mut DocIndex, ids: &Vec<usize>)
    ensures
        mh_num_hashes(*final(idx)) == mh_num_hashes(*old(idx)),
        forall|a: Seq<u32>, b: Seq<u32>| #[trigger]
            mh_similar(*final(idx), a, b) == mh_similar(*old(idx), a, b),
        forall|id: usize| #[trigger]
            mh_contents(*final(idx)).dom().contains(id) <==> (mh_contents(
                *old(idx),
            ).dom().contains(id) && !ids@.contains(id)),
        forall|id: usize|
            mh_contents(*final(idx)).dom().contains(id) ==> #[trigger] mh_contents(*final(idx))[id]
                == mh_contents(*old(idx))[id],
{
    idx.inner.bulk_remove(ids);
}

/// Ascending order.
pub open spec fn sorted(s: Seq<usize>) -> bool {
    forall|i: int, j: int| 0 <= i <= j < s.len() ==> s[i] <= s[j]
}

/// Selection sort; the result holds exactly the input's elements.
fn sort_ids(v: Vec<usize>) -> (out: Vec<usize>)
    ensures
        sorted(out@),
        out@.to_multiset() == v@.to_multiset(),
        out@.len() == v@.len(),
        forall|e: usize| out@.contains(e) <==> v@.contains(e),
        v@.no_duplicates() ==> out@.no_duplicates(),
{
    broadcast use vstd::seq_lib::group_to_multiset_ensures;

    let mut rest = v;
    let mut out: Vec<usize> = Vec::new();
    proof {
        assert(out@.to_multiset().add(rest@.to_multiset()) =~= v@.to_multiset());
    }
    while rest.len() > 0
        invariant
            out@.to_multiset().add(rest@.to_multiset()) == v@.to_multiset(),
            out@.len() + rest@.len() == v@.len(),
            sorted(out@),
            forall|a: int, b: int|
                0 <= a < out@.len() && 0 <= b < rest@.len() ==> out@[a] <= rest@[b],
        decreases rest@.len(),
    {
        let mut m: usize = 0;
        let mut k: usize = 1;
        while k < rest.len()
            invariant
                m < rest@.len(),
                k <= rest@.len(),
                forall|a: int| 0 <= a < k ==> rest@[m as int] <= rest@[a],
            decreases rest@.len() - k,
        {
            if rest[k] < rest[m] {
                m = k;
            }
            k = k + 1;
        }
        let ghost pre = rest@;
        let x = rest.remove(m);
        proof {
            pre.to_multiset_ensures();
            out@.to_multiset_ensures();
            assert(pre.remove(m as int).to_multiset() =~= pre.to_multiset().remove(x));
            assert(out@.push(x).to_multiset() =~= out@.to_multiset().insert(x));
            assert(out@.to_multiset().insert(x).add(pre.to_multiset().remove(x)) =~= out@.to_multiset().add(
                pre.to_multiset(),
            )) by {
                assert(pre.to_multiset().contains(x)) by {
                    assert(pre[m as int] == x);
                }
            }
        }
        out.push(x);
    }
    proof {
        assert(rest@.to_multiset() =~= Multiset::<usize>::empty());
        assert(out@.to_multiset() =~= v@.to_multiset());
        assert forall|e: usize| out@.contains(e) <==> v@.contains(e) by {
            assert(out@.contains(e) <==> out@.to_multiset().count(e) > 0);
            assert(v@.contains(e) <==> v@.to_multiset().count(e) > 0);
        }
        if v@.no_duplicates() {
            v@.lemma_multiset_has_no_duplicates();
            out@.lemma_multiset_has_no_duplicates_conv();
        }
    }
    out
}

/// The effect of one query record on the roots (see
/// `crate::cluster::merge_roots`): document `i` is unioned with each of
/// its matches in turn.
pub open spec fn apply_id_record(r: Seq<int>, i: int, ids: Seq<usize>, k: int) -> Seq<int>
    decreases ids.len() - k,
    when 0 <= k <= ids.len()
{
    if k >= ids.len() {
        r
    } else {
        apply_id_record(crate::cluster::merge_roots(r, i, ids[k] as int), i, ids, k + 1)
    }
}

/// The combined effect of the query records from position `i` on, record
/// `q` being the matches of document `q`.
pub open spec fn apply_id_records(r: Seq<int>, records: Seq<Seq<usize>>, i: int) -> Seq<int>
    decreases records.len() - i,
    when 0 <= i <= records.len()
{
    if i >= records.len() {
        r
    } else {
        apply_id_records(apply_id_record(r, i, records[i], 0), records, i + 1)
    }
}

/// Appending one more record extends the fold by that record's unions.
proof fn lemma_apply_id_records_push(
    r: Seq<int>,
    records: Seq<Seq<usize>>,
    rec: Seq<usize>,
    i: int,
)
    requires
        0 <= i <= records.len(),
    ensures
        apply_id_records(r, records.push(rec), i) == apply_id_record(
            apply_id_records(r, records, i),
            records.len() as int,
            rec,
            0,
        ),
    decreases records.len() - i,
{
    if i == records.len() {
        assert(records.push(rec)[i] == rec);
        assert(apply_id_records(r, records.push(rec), i) == apply_id_records(
            apply_id_record(r, i, rec, 0),
            records.push(rec),
            i + 1,
        ));
    } else {
        assert(records.push(rec)[i] == records[i]);
        lemma_apply_id_records_push(apply_id_record(r, i, records[i], 0), records, rec, i + 1);
    }
}

/// The concatenation of every match set of at least `thr` ids, from
/// record `q` on: the preemptive blocklist of a query pass.
pub open spec fn over_threshold_concat(results: Seq<Vec<usize>>, thr: nat, q: int) -> Seq<usize>
    decreases results.len() - q,
    when 0 <= q <= results.len()
{
    if q >= results.len() {
        seq![]
    } else {
        (if results[q]@.len() >= thr {
            results[q]@
        } else {
            seq![]
        }) + over_threshold_concat(results, thr, q + 1)
    }
}

/// Why indexing stopped.
#[derive(PartialEq, Eq, Structural, Clone, Copy, Debug)]
pub enum IndexError {
    /// A line is not a JSON object carrying a `text` string.
    BadDocument,
}

/// Drives signature computation and the banded MinHash index: insert each
/// batch of JSONL lines under consecutive document ids, then either query
/// for near-duplicate sets or derive the similarity clusters.
pub struct Indexer {
    pub hasher: MinHashProcessor,
    pub index: DocIndex,
    pub batch_size: usize,
    pub num_duplicates_threshold: usize,
}

impl Indexer {
    pub open spec fn wf(&self) -> bool {
        &&& self.hasher.wf()
        &&& self.hasher.permutations == mh_num_hashes(self.index)
        &&& mh_inv(self.index)
    }

    /// The signature the indexer computes for a document's text.
    pub open spec fn sig_of(&self, text: Seq<char>) -> Seq<u32> {
        signature_spec(
            self.hasher.permutations as nat,
            self.hasher.tokenization,
            self.hasher.window_size as nat,
            text,
        )
    }

    /// Wrap an index (created by the caller with the banding parameters
    /// and the Jaccard threshold) together with the matching signature
    /// producer.
    pub fn new(
        index: DocIndex,
        tokenization: Tokenization,
        window_size: usize,
        batch_size: usize,
        num_duplicates_threshold: usize,
    ) -> (r: Indexer)
        requires
            tokenization is Char ==> window_size >= 1,
            mh_inv(index),
        ensures
            r.wf(),
            r.index == index,
            r.hasher.tokenization == tokenization,
            r.hasher.window_size == window_size,
            r.hasher.permutations == mh_num_hashes(index),
            r.batch_size == batch_size,
            r.num_duplicates_threshold == num_duplicates_threshold,
    {
        let permutations = mh_num_hashes_exec(&index);
        let hasher = MinHashProcessor::new(permutations, tokenization, window_size);
        Indexer { hasher, index, batch_size, num_duplicates_threshold }
    }

    /// Parse, hash and index one batch of lines. Document ids continue
    /// from `global_id` in line order, which afterwards stands one past
    /// the batch; on a malformed line nothing is indexed.
    pub fn index_batch(&mut self, batch: &Vec<Vec<u8>>, global_id: &mut usize) -> (r: Result<
        (),
        IndexError,
    >)
        requires
            old(self).wf(),
            *old(global_id) + batch@.len() <= usize::MAX,
        ensures
            final(self).wf(),
            final(self).hasher == old(self).hasher,
            final(self).batch_size == old(self).batch_size,
            final(self).num_duplicates_threshold == old(self).num_duplicates_threshold,
            match r {
                Ok(()) => {
                    &&& *final(global_id) == *old(global_id) + batch@.len()
                    &&& forall|j: int|
                        0 <= j < batch@.len() ==> crate::text_field_of(
                            (#[trigger] batch@[j])@,
                        ) is Some
                    &&& forall|j: int|
                        0 <= j < batch@.len() ==> mh_contents(final(self).index).dom().contains(
                            (*old(global_id) + j) as usize,
                        ) && mh_contents(final(self).index)[(*old(global_id) + j) as usize]
                            == old(self).sig_of(crate::text_field_of(
                            (#[trigger] batch@[j])@,
                        ).unwrap())
                    &&& forall|id: usize|
                        !(*old(global_id) <= id < *old(global_id) + batch@.len()) ==> (mh_contents(
                            final(self).index,
                        ).dom().contains(id) <==> mh_contents(old(self).index).dom().contains(id))
                    &&& forall|id: usize|
                        !(*old(global_id) <= id < *old(global_id) + batch@.len()) && mh_contents(
                            old(self).index,
                        ).dom().contains(id) ==> #[trigger] mh_contents(final(self).index)[id]
                            == mh_contents(old(self).index)[id]
                    &&& mh_num_hashes(final(self).index) == mh_num_hashes(old(self).index)
                    &&& forall|a: Seq<u32>, b: Seq<u32>| #[trigger]
                        mh_similar(final(self).index, a, b) == mh_similar(old(self).index, a, b)
                },
                Err(e) => {
                    &&& e == IndexError::BadDocument
                    &&& exists|j: int|
                        0 <= j < batch@.len() && crate::text_field_of(
                            (#[trigger] batch@[j])@,
                        ) is None
                    &&& final(self).index == old(self).index
                    &&& *final(global_id) == *old(global_id)
                },
            },
    {
        let m = batch.len();
        let mut sigs: Vec<Vec<u32>> = Vec::new();
        let mut j: usize = 0;
        while j < m
            invariant
                0 <= j <= m,
                m == batch@.len(),
                self == old(self),
                old(self).wf(),
                sigs@.len() == j,
                forall|k: int|
                    0 <= k < j ==> crate::text_field_of((#[trigger] batch@[k])@) is Some,
                forall|k: int|
                    0 <= k < j ==> (#[trigger] sigs@[k])@ == old(self).sig_of(
                        crate::text_field_of(batch@[k]@).unwrap(),
                    ),
                forall|k: int|
                    0 <= k < j ==> (#[trigger] sigs@[k])@.len() == mh_num_hashes(old(self).index),
            decreases m - j,
        {
            let doc = match DocumentText::parse(&batch[j]) {
                Some(doc) => doc,
                None => {
                    return Err(IndexError::BadDocument);
                },
            };
            let sig = self.hasher.create_signature(doc.text.as_str());
            sigs.push(sig);
            j = j + 1;
        }
        let start = *global_id;
        let mut ids: Vec<usize> = Vec::new();
        let mut k: usize = 0;
        while k < m
            invariant
                0 <= k <= m,
                start + m <= usize::MAX,
                ids@.len() == k,
                forall|a: int| 0 <= a < k ==> ids@[a] == start + a,
            decreases m - k,
        {
            ids.push(start + k);
            k = k + 1;
        }
        let ghost idsg = ids@;
        let ghost sigsg = sigs@;
        proof {
            assert forall|a: int, b: int| 0 <= a < b < idsg.len() implies idsg[a] != idsg[b] by {}
            assert forall|id: usize|
                !(start <= id < start + m) implies !idsg.contains(id) by {
                if idsg.contains(id) {
                    let w = choose|w: int| 0 <= w < idsg.len() && idsg[w] == id;
                    assert(idsg[w] == start + w);
                }
            }
        }
        mh_bulk_insert(&mut self.index, ids, sigs);
        *global_id = start + m;
        proof {
            assert forall|j2: int|
                0 <= j2 < batch@.len() implies mh_contents(self.index).dom().contains(
                ((*old(global_id) + j2) as usize),
            ) && mh_contents(self.index)[(*old(global_id) + j2) as usize] == old(self).sig_of(
                crate::text_field_of((#[trigger] batch@[j2])@).unwrap(),
            ) by {
                assert(idsg[j2] == start + j2);
                assert(start == *old(global_id));
                assert(mh_contents(self.index).dom().contains(idsg[j2]));
                assert(mh_contents(self.index)[idsg[j2]] == sigsg[j2]@);
                assert(sigsg[j2]@ == old(self).sig_of(
                    crate::text_field_of(batch@[j2]@).unwrap(),
                ));
            }
            assert forall|id2: usize|
                !(*old(global_id) <= id2 < *old(global_id) + batch@.len()) implies (mh_contents(
                self.index,
            ).dom().contains(id2) <==> mh_contents(old(self).index).dom().contains(id2)) by {
                assert(!idsg.contains(id2));
            }
            assert forall|id2: usize|
                !(*old(global_id) <= id2 < *old(global_id) + batch@.len()) && mh_contents(
                old(self).index,
            ).dom().contains(id2) implies #[trigger] mh_contents(self.index)[id2] == mh_contents(
                old(self).index,
            )[id2] by {
                assert(!idsg.contains(id2));
            }
            assert forall|id2: usize|
                mh_contents(self.index).dom().contains(id2) implies (#[trigger] mh_contents(
                self.index,
            )[id2]).len() == mh_num_hashes(self.index) by {
                if idsg.contains(id2) {
                    let w = choose|w: int| 0 <= w < idsg.len() && idsg[w] == id2;
                    assert(mh_contents(self.index).dom().contains(idsg[w]));
                    assert(mh_contents(self.index)[idsg[w]] == sigsg[w]@);
                } else {
                    assert(mh_contents(old(self).index).dom().contains(id2));
                    assert(mh_contents(self.index)[id2] == mh_contents(old(self).index)[id2]);
                }
            }
        }
        Ok(())
    }

    /// Compute signatures for a batch and query the index: for each line,
    /// the ascending ids of the indexed documents its signature matches.
    pub fn query_batch(&self, batch: &Vec<Vec<u8>>) -> (r: Result<Vec<Vec<usize>>, IndexError>)
        requires
            self.wf(),
        ensures
            match r {
                Ok(results) => {
                    &&& results@.len() == batch@.len()
                    &&& forall|q: int|
                        0 <= q < batch@.len() ==> crate::text_field_of(
                            (#[trigger] batch@[q])@,
                        ) is Some
                    &&& forall|q: int| 0 <= q < results@.len() ==> sorted((#[trigger] results@[q])@)
                    &&& forall|q: int|
                        0 <= q < results@.len() ==> (#[trigger] results@[q])@.no_duplicates()
                    &&& forall|q: int, e: usize|
                        #![trigger results@[q]@.contains(e)]
                        0 <= q < results@.len() ==> (results@[q]@.contains(e) <==> mh_query_set(
                            self.index,
                            self.sig_of(crate::text_field_of(batch@[q]@).unwrap()),
                        ).contains(e))
                    &&& forall|q: int, e: usize|
                        #![trigger results@[q]@.contains(e)]
                        0 <= q < results@.len() && results@[q]@.contains(e) ==> mh_contents(
                            self.index,
                        ).dom().contains(e) && mh_similar(
                            self.index,
                            mh_contents(self.index)[e],
                            self.sig_of(crate::text_field_of(batch@[q]@).unwrap()),
                        )
                    &&& forall|q: int, e: usize|
                        #![trigger results@[q]@.contains(e)]
                        0 <= q < results@.len() && mh_contents(self.index).dom().contains(e)
                            && mh_contents(self.index)[e] == self.sig_of(
                            crate::text_field_of(batch@[q]@).unwrap(),
                        ) && mh_similar(
                            self.index,
                            mh_contents(self.index)[e],
                            mh_contents(self.index)[e],
                        ) ==> results@[q]@.contains(e)
                },
                Err(e) => {
                    &&& e == IndexError::BadDocument
                    &&& exists|q: int|
                        0 <= q < batch@.len() && crate::text_field_of(
                            (#[trigger] batch@[q])@,
                        ) is None
                },
            },
    {
        let m = batch.len();
        let mut sigs: Vec<Vec<u32>> = Vec::new();
        let mut j: usize = 0;
        while j < m
            invariant
                0 <= j <= m,
                m == batch@.len(),
                self.wf(),
                sigs@.len() == j,
                forall|k: int|
                    0 <= k < j ==> crate::text_field_of((#[trigger] batch@[k])@) is Some,
                forall|k: int|
                    0 <= k < j ==> (#[trigger] sigs@[k])@ == self.sig_of(
                        crate::text_field_of(batch@[k]@).unwrap(),
                    ),
                forall|k: int|
                    0 <= k < j ==> (#[trigger] sigs@[k])@.len() == mh_num_hashes(self.index),
            decreases m - j,
        {
            let doc = match DocumentText::parse(&batch[j]) {
                Some(doc) => doc,
                None => {
                    return Err(IndexError::BadDocument);
                },
            };
            let sig = self.hasher.create_signature(doc.text.as_str());
            sigs.push(sig);
            j = j + 1;
        }
        let raw = mh_bulk_query(&self.index, &sigs);
        let mut results: Vec<Vec<usize>> = Vec::new();
        let mut q: usize = 0;
        let n = raw.len();
        while q < n
            invariant
                0 <= q <= n,
                n == raw@.len(),
                n == sigs@.len(),
                n == m,
                m == batch@.len(),
                results@.len() == q,
                forall|k: int|
                    0 <= k < m ==> (#[trigger] sigs@[k])@ == self.sig_of(
                        crate::text_field_of(batch@[k]@).unwrap(),
                    ),
                forall|a: int, e: usize|
                    #![trigger raw@[a]@.contains(e)]
                    #![trigger mh_query_set(self.index, sigs@[a]@).contains(e)]
                    0 <= a < n ==> (raw@[a]@.contains(e) <==> mh_query_set(
                        self.index,
                        sigs@[a]@,
                    ).contains(e)),
                forall|a: int| 0 <= a < q ==> sorted((#[trigger] results@[a])@),
                forall|a: int| 0 <= a < q ==> (#[trigger] results@[a])@.no_duplicates(),
                forall|a: int, j: int, k2: int|
                    #![trigger raw@[a]@[j], raw@[a]@[k2]]
                    0 <= a < n && 0 <= j < k2 < raw@[a]@.len() ==> raw@[a]@[j] != raw@[a]@[k2],
                forall|a: int, e: usize|
                    #![trigger results@[a]@.contains(e)]
                    #![trigger mh_query_set(self.index, sigs@[a]@).contains(e)]
                    0 <= a < q ==> (results@[a]@.contains(e) <==> mh_query_set(
                        self.index,
                        sigs@[a]@,
                    ).contains(e)),
            decreases n - q,
        {
            let mut taken = Vec::new();
            let row = &raw[q];
            let mut t: usize = 0;
            while t < row.len()
                invariant
                    0 <= t <= row@.len(),
                    taken@ == row@.take(t as int),
                decreases row@.len() - t,
            {
                taken.push(row[t]);
                proof {
                    assert(row@.take(t + 1) =~= row@.take(t as int) + seq![row@[t as int]]);
                }
                t = t + 1;
            }
            proof {
                assert(row@.take(row@.len() as int) =~= row@);
            }
            proof {
                assert(taken@.no_duplicates()) by {
                    assert forall|j: int, k2: int|
                        0 <= j < taken@.len() && 0 <= k2 < taken@.len() && j != k2 implies taken@[j]
                        != taken@[k2] by {
                        assert(taken@[j] == raw@[q as int]@[j]);
                        assert(taken@[k2] == raw@[q as int]@[k2]);
                    }
                }
            }
            let sorted_row = sort_ids(taken);
            results.push(sorted_row);
            q = q + 1;
        }
        Ok(results)
    }

    /// The members of every over-large match set: the ids to record in a
    /// preemptive blocklist and drop from the index, so later probes do
    /// not re-encounter them.
    pub fn over_threshold_ids(&self, results: &Vec<Vec<usize>>) -> (blocked: Vec<usize>)
        ensures
            blocked@ == over_threshold_concat(
                results@,
                self.num_duplicates_threshold as nat,
                0,
            ),
    {
        let ghost thr = self.num_duplicates_threshold as nat;
        let mut blocked: Vec<usize> = Vec::new();
        let n = results.len();
        let mut q: usize = 0;
        proof {
            assert(over_threshold_concat(results@, thr, 0) =~= blocked@ + over_threshold_concat(
                results@,
                thr,
                0,
            ));
        }
        while q < n
            invariant
                0 <= q <= n,
                n == results@.len(),
                thr == self.num_duplicates_threshold as nat,
                over_threshold_concat(results@, thr, 0) == blocked@ + over_threshold_concat(
                    results@,
                    thr,
                    q as int,
                ),
            decreases n - q,
        {
            let row = &results[q];
            if row.len() >= self.num_duplicates_threshold {
                let ghost pre = blocked@;
                let m = row.len();
                let mut k: usize = 0;
                while k < m
                    invariant
                        0 <= k <= m,
                        m == row@.len(),
                        row@ == results@[q as int]@,
                        blocked@ == pre + row@.take(k as int),
                    decreases m - k,
                {
                    blocked.push(row[k]);
                    proof {
                        assert(row@.take(k + 1) =~= row@.take(k as int) + seq![row@[k as int]]);
                        assert(blocked@ =~= pre + row@.take(k + 1));
                    }
                    k = k + 1;
                }
                proof {
                    assert(row@.take(m as int) =~= row@);
                    assert(over_threshold_concat(results@, thr, q as int) =~= row@
                        + over_threshold_concat(results@, thr, q + 1));
                    assert(over_threshold_concat(results@, thr, 0) =~= blocked@
                        + over_threshold_concat(results@, thr, q + 1));
                }
            } else {
                proof {
                    assert(over_threshold_concat(results@, thr, q as int)
                        =~= over_threshold_concat(results@, thr, q + 1));
                }
            }
            q = q + 1;
        }
        proof {
            assert(over_threshold_concat(results@, thr, n as int) =~= Seq::<usize>::empty());
            assert(blocked@ =~= over_threshold_concat(results@, thr, 0));
        }
        blocked
    }

    /// Drop the listed ids from every band bucket they appear in.
    pub fn remove_ids(&mut self, ids: &Vec<usize>)
        requires
            old(self).wf(),
        ensures
            final(self).wf(),
            final(self).hasher == old(self).hasher,
            final(self).batch_size == old(self).batch_size,
            final(self).num_duplicates_threshold == old(self).num_duplicates_threshold,
            mh_num_hashes(final(self).index) == mh_num_hashes(old(self).index),
            forall|id: usize| #[trigger]
                mh_contents(final(self).index).dom().contains(id) <==> (mh_contents(
                    old(self).index,
                ).dom().contains(id) && !ids@.contains(id)),
            forall|id: usize|
                mh_contents(final(self).index).dom().contains(id) ==> #[trigger] mh_contents(
                    final(self).index,
                )[id] == mh_contents(old(self).index)[id],
    {
        mh_bulk_remove(&mut self.index, ids);
    }

    /// Cluster mode: query every indexed document by its own signature and
    /// union it with each of its matches in ascending order, seeded from
    /// the lowest id. The roots afterwards are exactly the fold of those
    /// per-document query records over the identity assignment; in
    /// particular any two documents that one's query relates share a
    /// cluster.
    pub fn find_clusters(&self, num_docs: usize) -> (uf: UnionFind)
        requires
            self.wf(),
            forall|id: usize|
                #[trigger] mh_contents(self.index).dom().contains(id) ==> id < num_docs,
        ensures
            uf.wf(),
            uf@.len() == num_docs,
            forall|id: usize, e: usize|
                mh_contents(self.index).dom().contains(id) && #[trigger] mh_query_set(
                    self.index,
                    mh_contents(self.index)[id],
                ).contains(e) ==> same_cluster(uf@, id as int, e as int),
            exists|records: Seq<Seq<usize>>|
                {
                    &&& records.len() == num_docs
                    &&& (forall|q: int| 0 <= q < num_docs ==> sorted(#[trigger] records[q]))
                    &&& (forall|q: int, e: usize|
                        #![trigger records[q].contains(e)]
                        0 <= q < num_docs ==> (records[q].contains(e) <==> (mh_contents(
                            self.index,
                        ).dom().contains(q as usize) && mh_query_set(
                            self.index,
                            mh_contents(self.index)[q as usize],
                        ).contains(e))))
                    &&& crate::cluster::roots_seq(uf@) == apply_id_records(
                        crate::cluster::identity_roots(num_docs as nat),
                        records,
                        0,
                    )
                },
    {
        let mut uf = UnionFind::new(num_docs);
        let ghost mut recs: Seq<Seq<usize>> = Seq::empty();
        proof {
            assert(crate::cluster::roots_seq(uf@) =~= crate::cluster::identity_roots(
                num_docs as nat,
            ));
        }
        let mut id: usize = 0;
        while id < num_docs
            invariant
                0 <= id <= num_docs,
                self.wf(),
                forall|d: usize|
                    #[trigger] mh_contents(self.index).dom().contains(d) ==> d < num_docs,
                uf.wf(),
                uf@.len() == num_docs,
                forall|d: usize, e: usize|
                    d < id && mh_contents(self.index).dom().contains(d) && #[trigger] mh_query_set(
                        self.index,
                        mh_contents(self.index)[d],
                    ).contains(e) ==> same_cluster(uf@, d as int, e as int) && e < num_docs,
                recs.len() == id,
                forall|q: int| 0 <= q < id ==> sorted(#[trigger] recs[q]),
                forall|q: int, e: usize|
                    #![trigger recs[q].contains(e)]
                    0 <= q < id ==> (recs[q].contains(e) <==> (mh_contents(
                        self.index,
                    ).dom().contains(q as usize) && mh_query_set(
                        self.index,
                        mh_contents(self.index)[q as usize],
                    ).contains(e))),
                crate::cluster::roots_seq(uf@) == apply_id_records(
                    crate::cluster::identity_roots(num_docs as nat),
                    recs,
                    0,
                ),
            decreases num_docs - id,
        {
            let matches = mh_query_by_id(&self.index, id);
            let ghost matchesv = matches@;
            let row = sort_ids(matches);
            proof {
                assert(forall|e: usize| row@.contains(e) <==> matchesv.contains(e));
            }
            let ghost r0 = crate::cluster::roots_seq(uf@);
            let mut k: usize = 0;
            let mm = row.len();
            proof {
                assert(apply_id_record(r0, id as int, row@, 0) == apply_id_record(
                    crate::cluster::roots_seq(uf@),
                    id as int,
                    row@,
                    0,
                ));
            }
            while k < mm
                invariant
                    0 <= k <= mm,
                    mm == row@.len(),
                    self.wf(),
                    id < num_docs,
                    forall|d: usize|
                        #[trigger] mh_contents(self.index).dom().contains(d) ==> d < num_docs,
                    forall|e: usize|
                        mh_contents(self.index).dom().contains(id) ==> (row@.contains(e)
                            <==> mh_query_set(
                            self.index,
                            mh_contents(self.index)[id],
                        ).contains(e)),
                    !mh_contents(self.index).dom().contains(id) ==> row@.len() == 0,
                    forall|e: usize| row@.contains(e) ==> mh_contents(self.index).dom().contains(e),
                    uf.wf(),
                    uf@.len() == num_docs,
                    forall|d: usize, e: usize|
                        d < id && mh_contents(self.index).dom().contains(d)
                            && #[trigger] mh_query_set(
                            self.index,
                            mh_contents(self.index)[d],
                        ).contains(e) ==> same_cluster(uf@, d as int, e as int) && e < num_docs,
                    forall|a: int|
                        0 <= a < k ==> same_cluster(uf@, id as int, (#[trigger] row@[a]) as int),
                    apply_id_record(r0, id as int, row@, 0) == apply_id_record(
                        crate::cluster::roots_seq(uf@),
                        id as int,
                        row@,
                        k as int,
                    ),
                decreases mm - k,
            {
                let e = row[k];
                proof {
                    assert(row@.contains(row@[k as int]));
                    assert(mh_contents(self.index).dom().contains(row@[k as int]));
                }
                let ghost pre = uf@;
                uf.union(id, e);
                proof {
                    assert(crate::cluster::roots_seq(uf@) =~= crate::cluster::merge_roots(
                        crate::cluster::roots_seq(pre),
                        id as int,
                        e as int,
                    ));
                    assert(apply_id_record(crate::cluster::roots_seq(pre), id as int, row@, k as int)
                        == apply_id_record(crate::cluster::roots_seq(uf@), id as int, row@, k + 1));
                    assert forall|a: int, b: int|
                        0 <= a < pre.len() && 0 <= b < pre.len() && same_cluster(pre, a, b)
                            implies same_cluster(uf@, a, b) by {
                        assert(crate::unionfind::root_of(uf@, a) == (
                        if crate::unionfind::root_of(pre, a) == crate::unionfind::root_of(
                            pre,
                            e as int,
                        ) {
                            crate::unionfind::root_of(pre, id as int)
                        } else {
                            crate::unionfind::root_of(pre, a)
                        }));
                        assert(crate::unionfind::root_of(uf@, b) == (
                        if crate::unionfind::root_of(pre, b) == crate::unionfind::root_of(
                            pre,
                            e as int,
                        ) {
                            crate::unionfind::root_of(pre, id as int)
                        } else {
                            crate::unionfind::root_of(pre, b)
                        }));
                    }
                    assert forall|d: usize, e2: usize|
                        d < id && mh_contents(self.index).dom().contains(d)
                            && #[trigger] mh_query_set(
                            self.index,
                            mh_contents(self.index)[d],
                        ).contains(e2) implies same_cluster(uf@, d as int, e2 as int) by {
                        assert(same_cluster(pre, d as int, e2 as int));
                        assert(d < num_docs);
                        assert(e2 < num_docs);
                    }
                    assert forall|a: int|
                        0 <= a <= k implies same_cluster(
                        uf@,
                        id as int,
                        (row@[a]) as int,
                    ) by {
                        if a < k {
                            assert(same_cluster(pre, id as int, row@[a] as int));
                            assert(row@.contains(row@[a]));
                            assert(mh_contents(self.index).dom().contains(row@[a]));
                            assert(row@[a] < num_docs);
                        }
                    }
                }
                k = k + 1;
            }
            proof {
                assert forall|d: usize, e: usize|
                    d < id + 1 && mh_contents(self.index).dom().contains(d)
                        && #[trigger] mh_query_set(
                        self.index,
                        mh_contents(self.index)[d],
                    ).contains(e) implies same_cluster(uf@, d as int, e as int) && e
                    < num_docs by {
                    if d == id {
                        assert(row@.contains(e));
                        assert(mh_contents(self.index).dom().contains(e));
                        let w = choose|w: int| 0 <= w < row@.len() && row@[w] == e;
                        assert(same_cluster(uf@, id as int, row@[w] as int));
                    }
                }
                // extend the record fold by this document's query record
                lemma_apply_id_records_push(
                    crate::cluster::identity_roots(num_docs as nat),
                    recs,
                    row@,
                    0,
                );
                recs = recs.push(row@);
                assert forall|q: int, e: usize|
                    #![trigger recs[q].contains(e)]
                    0 <= q < id + 1 implies (recs[q].contains(e) <==> (mh_contents(
                    self.index,
                ).dom().contains(q as usize) && mh_query_set(
                    self.index,
                    mh_contents(self.index)[q as usize],
                ).contains(e))) by {
                    if q == id {
                        assert(recs[q] == row@);
                        assert(row@.contains(e) <==> matchesv.contains(e));
                    }
                }
                assert forall|q: int| 0 <= q < id + 1 implies sorted(#[trigger] recs[q]) by {
                    if q == id {
                        assert(recs[q] == row@);
                    }
                }
            }
            id = id + 1;
        }
        proof {
            assert(recs.len() == num_docs && (forall|q: int|
                0 <= q < num_docs ==> sorted(#[trigger] recs[q])) && (forall|q: int, e: usize|
                #![trigger recs[q].contains(e)]
                0 <= q < num_docs ==> (recs[q].contains(e) <==> (mh_contents(
                    self.index,
                ).dom().contains(q as usize) && mh_query_set(
                    self.index,
                    mh_contents(self.index)[q as usize],
                ).contains(e)))) && crate::cluster::roots_seq(uf@) == apply_id_records(
                crate::cluster::identity_roots(num_docs as nat),
                recs,
                0,
            ));
        }
        uf
    }
}

} // verus!
