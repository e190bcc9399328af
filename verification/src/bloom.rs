use vstd::prelude::*;

use crate::DocumentText;

verus! {

#[verifier::external_type_specification]
#[verifier::external_body]
pub struct ExBloomFilter(fastbloom_rs::BloomFilter);

/// The texts whose bytes have been added to the filter. Querying a member
/// always answers yes; a non-member may also answer yes (a false
/// positive), at the rate the filter was sized for.
pub uninterp spec fn bloom_set(f: fastbloom_rs::BloomFilter) -> Set<Seq<char>>;

/// The filter's bit array is non-empty: what `FilterBuilder::new` builds
/// for at least one expected element. Membership operations reduce each
/// hash modulo the bit count, so they must not run on an empty array.
pub uninterp spec fn bloom_usable(f: fastbloom_rs::BloomFilter) -> bool;

/// What `contains` answers for the text's bytes: a function of the
/// filter's bits and the bytes alone.
pub uninterp spec fn bloom_mem(f: fastbloom_rs::BloomFilter, text: Seq<char>) -> bool;

/// Relies on `fastbloom_rs::BloomFilter::add` (the `Membership` impl):
/// it sets the member's bits, which recording the text in the abstract
/// set models, and leaves the configuration (so the bit count) alone.
/// Sized for zero elements the filter has no bits and the call would
/// take a remainder by zero.
#[verifier::external_body]
fn bloom_add(f: &mut fastbloom_rs::BloomFilter, text: &str)
    requires
        bloom_usable(*old(f)),
    ensures
        bloom_set(*final(f)) == bloom_set(*old(f)).insert(text@),
        bloom_usable(*final(f)),
{
    fastbloom_rs::Membership::add(f, text.as_bytes())
}

/// Relies on `fastbloom_rs::BloomFilter::contains`: deterministic in the
/// filter's bits and the text's bytes, and it checks exactly the bit
/// positions `add` sets, so a text that was added is always found; an
/// unrelated text may collide and be reported as well. The same
/// remainder by zero excludes a filter without bits.
#[verifier::external_body]
fn bloom_contains(f: &fastbloom_rs::BloomFilter, text: &str) -> (r: bool)
    requires
        bloom_usable(*f),
    ensures
        r == bloom_mem(*f, text@),
        bloom_set(*f).contains(text@) ==> r,
{
    fastbloom_rs::Membership::contains(f, text.as_bytes())
}

/// Why the exact-dedup pass stopped.
#[derive(PartialEq, Eq, Structural, Clone, Copy, Debug)]
pub enum BloomError {
    /// A line is not a JSON object carrying a `text` string.
    BadDocument,
}

/// Exact deduplication: each line's `text` is tested against a bloom
/// filter; a first-seen text is recorded and the full original line is
/// kept, a repeated text is dropped. A false positive of the filter can
/// drop a first-seen text, but two lines with equal text are never both
/// kept.
pub struct BloomDedupe {
    pub filter: fastbloom_rs::BloomFilter,
    pub num_docs: usize,
    pub kept_docs: usize,
    /// The texts of the lines kept so far.
    pub kept: Ghost<Seq<Seq<char>>>,
}

impl BloomDedupe {
    pub open spec fn wf(&self) -> bool {
        &&& bloom_usable(self.filter)
        &&& self.kept_docs <= self.num_docs
        &&& self.kept@.len() == self.kept_docs
        &&& forall|i: int| 0 <= i < self.kept@.len() ==> bloom_set(self.filter).contains(
            #[trigger] self.kept@[i],
        )
        &&& forall|i: int, j: int| 0 <= i < j < self.kept@.len() ==> self.kept@[i] != self.kept@[j]
    }

    /// Wrap a bloom filter the caller sized for the expected element
    /// count (at least one, so the filter has bits) and false-positive
    /// rate. Deduplication is meaningful from a fresh filter, but any
    /// filter pre-seeded with texts to suppress works the same way.
    pub fn new(filter: fastbloom_rs::BloomFilter) -> (r: BloomDedupe)
        requires
            bloom_usable(filter),
        ensures
            r.num_docs == 0,
            r.kept_docs == 0,
            r.kept@.len() == 0,
            r.filter == filter,
            r.wf(),
    {
        BloomDedupe { filter, num_docs: 0, kept_docs: 0, kept: Ghost(Seq::empty()) }
    }

    /// Test one line's text and keep the line exactly when the filter
    /// reported the text absent. A text already recorded never survives
    /// again; a kept text is recorded, so the texts of kept lines are
    /// pairwise distinct.
    pub fn process_line(&mut self, line: &Vec<u8>) -> (r: Result<Option<Vec<u8>>, BloomError>)
        requires
            old(self).wf(),
            old(self).num_docs < usize::MAX,
        ensures
            final(self).wf(),
            match r {
                Ok(out) => {
                    &&& crate::text_field_of(line@) matches Some(text)
                    &&& final(self).num_docs == old(self).num_docs + 1
                    &&& (out is Some <==> !bloom_mem(
                        old(self).filter,
                        crate::text_field_of(line@).unwrap(),
                    ))
                    &&& match out {
                        Some(v) => {
                            &&& v@ == line@
                            &&& !bloom_set(old(self).filter).contains(
                                crate::text_field_of(line@).unwrap(),
                            )
                            &&& bloom_set(final(self).filter) == bloom_set(
                                old(self).filter,
                            ).insert(crate::text_field_of(line@).unwrap())
                            &&& final(self).kept@ == old(self).kept@.push(
                                crate::text_field_of(line@).unwrap(),
                            )
                            &&& final(self).kept_docs == old(self).kept_docs + 1
                        },
                        None => {
                            &&& final(self).filter == old(self).filter
                            &&& final(self).kept@ == old(self).kept@
                            &&& final(self).kept_docs == old(self).kept_docs
                        },
                    }
                    &&& (bloom_set(old(self).filter).contains(crate::text_field_of(line@).unwrap())
                        ==> out is None)
                },
                Err(e) => {
                    &&& e == BloomError::BadDocument
                    &&& crate::text_field_of(line@) is None
                    &&& *final(self) == *old(self)
                },
            },
    {
        let doc = match DocumentText::parse(line) {
            Some(doc) => doc,
            None => {
                return Err(BloomError::BadDocument);
            },
        };
        self.num_docs = self.num_docs + 1;
        if bloom_contains(&self.filter, doc.text.as_str()) {
            Ok(None)
        } else {
            bloom_add(&mut self.filter, doc.text.as_str());
            proof {
                assert forall|i: int| 0 <= i < old(self).kept@.len() implies bloom_set(
                    self.filter,
                ).contains(#[trigger] old(self).kept@[i]) by {}
            }
            self.kept_docs = self.kept_docs + 1;
            self.kept = Ghost(self.kept@.push(doc.text@));
            let out = copy_line(line);
            Ok(Some(out))
        }
    }
}

/// Exact-dedup keeps no two records with equal text: every kept text was
/// absent from the filter when its line arrived and is recorded at once,
/// so the kept texts are pairwise distinct.
pub proof fn lemma_no_duplicate_survives(d: &BloomDedupe, i: int, j: int)
    requires
        d.wf(),
        0 <= i < j < d.kept@.len(),
    ensures
        d.kept@[i] != d.kept@[j],
{
}

/// Byte-for-byte copy of a line.
fn copy_line(v: &Vec<u8>) -> (r: Vec<u8>)
    ensures
        r@ == v@,
{
    let mut out: Vec<u8> = Vec::new();
    let mut j: usize = 0;
    let n = v.len();
    while j < n
        invariant
            j <= n,
            n == v@.len(),
            out@ == v@.subrange(0, j as int),
        decreases n - j,
    {
        out.push(v[j]);
        proof {
            assert(v@.subrange(0, j + 1) =~= v@.subrange(0, j as int) + seq![v@[j as int]]);
        }
        j = j + 1;
    }
    proof {
        assert(v@.subrange(0, n as int) =~= v@);
    }
    out
}

} // verus!
