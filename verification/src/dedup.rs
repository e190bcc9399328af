use vstd::prelude::*;

use crate::unionfind::{flattened, root_of, wf_parents, UnionFind};

verus! {

/// How many entries of `p` hold the value `v`.
pub open spec fn count_eq(p: Seq<usize>, v: int) -> nat
    decreases p.len(),
{
    if p.len() == 0 {
        0
    } else {
        count_eq(p.drop_last(), v) + if p.last() == v {
            1nat
        } else {
            0nat
        }
    }
}

/// No value occurs more often than the array is long.
pub proof fn lemma_count_eq_le_len(p: Seq<usize>, v: int)
    ensures
        count_eq(p, v) <= p.len(),
    decreases p.len(),
{
    if p.len() > 0 {
        lemma_count_eq_le_len(p.drop_last(), v);
    }
}

/// How many indices below `k` are their own parent (the survivors).
pub open spec fn roots_below(p: Seq<usize>, k: int) -> nat
    decreases k,
{
    if k <= 0 {
        0
    } else {
        roots_below(p, k - 1) + if p[k - 1] == k - 1 {
            1nat
        } else {
            0nat
        }
    }
}

/// The decimal digits of `n`, most significant first.
pub open spec fn dec_digits(n: nat) -> Seq<u8>
    decreases n,
{
    if n < 10 {
        seq![(48 + n) as u8]
    } else {
        dec_digits(n / 10) + seq![(48 + n % 10) as u8]
    }
}

/// Append the decimal rendering of `n` to `out`.
pub fn push_decimal(out: &mut Vec<u8>, n: usize)
    ensures
        final(out)@ == old(out)@ + dec_digits(n as nat),
    decreases n,
{
    if n < 10 {
        out.push(48 + n as u8);
        assert(final(out)@ =~= old(out)@ + dec_digits(n as nat));
    } else {
        push_decimal(out, n / 10);
        out.push(48 + (n % 10) as u8);
        assert(final(out)@ =~= old(out)@ + dec_digits(n as nat));
    }
}

/// For each index `r`, how many documents are in the cluster rooted at `r`.
///
/// The parent array must already be flattened, so that `p[j]` is the root
/// of `j`; the size of the cluster of a surviving document `i` is then
/// `counts[p[i]]`, the number of indices whose root is `p[i]`.
pub fn compute_cluster_sizes(parents: &Vec<usize>) -> (counts: Vec<usize>)
    requires
        forall|i: int| 0 <= i < parents@.len() ==> parents@[i] < parents@.len(),
    ensures
        counts@.len() == parents@.len(),
        forall|r: int| 0 <= r < counts@.len() ==> counts@[r] == count_eq(parents@, r),
{
    let n = parents.len();
    let mut counts: Vec<usize> = Vec::new();
    let mut i: usize = 0;
    while i < n
        invariant
            i <= n,
            counts@.len() == i,
            forall|r: int| 0 <= r < i ==> counts@[r] == 0,
        decreases n - i,
    {
        counts.push(0);
        i = i + 1;
    }
    let mut j: usize = 0;
    while j < n
        invariant
            j <= n,
            n == parents@.len(),
            counts@.len() == n,
            forall|i2: int| 0 <= i2 < n ==> parents@[i2] < n,
            forall|r: int| 0 <= r < n ==> counts@[r] == count_eq(parents@.take(j as int), r),
        decreases n - j,
    {
        let p = parents[j];
        proof {
            lemma_count_eq_le_len(parents@.take(j as int), p as int);
            assert(parents@.take(j + 1).drop_last() =~= parents@.take(j as int));
            assert(parents@.take(j + 1).last() == parents@[j as int]);
        }
        let c = counts[p];
        counts.set(p, c + 1);
        proof {
            assert forall|r: int| 0 <= r < n implies counts@[r] == count_eq(
                parents@.take(j + 1),
                r,
            ) by {
                assert(parents@.take(j + 1).drop_last() =~= parents@.take(j as int));
            }
        }
        j = j + 1;
    }
    proof {
        assert(parents@.take(n as int) =~= parents@);
    }
    counts
}

pub open spec fn is_digit(b: u8) -> bool {
    48 <= b <= 57
}

/// The bytes of `{"id":`, the prefix every rewritable record starts with.
pub open spec fn id_prefix() -> Seq<u8> {
    seq![123u8, 34u8, 105u8, 100u8, 34u8, 58u8]
}

/// The bytes of `,"cluster_size":`, spliced before a record's closing brace.
pub open spec fn cluster_size_label() -> Seq<u8> {
    seq![44u8, 34u8, 99u8, 108u8, 117u8, 115u8, 116u8, 101u8, 114u8, 95u8, 115u8, 105u8, 122u8, 101u8, 34u8, 58u8]
}

/// Index of the first non-digit at or after `i`.
pub open spec fn digits_end(line: Seq<u8>, i: int) -> int
    decreases line.len() - i,
{
    if i < line.len() && is_digit(line[i]) {
        digits_end(line, i + 1)
    } else {
        i
    }
}

/// The line starts with `{"id":` followed by at least one digit and a comma.
pub open spec fn has_id_prefix(line: Seq<u8>) -> bool {
    &&& line.len() >= 8
    &&& line.take(6) == id_prefix()
    &&& digits_end(line, 6) > 6
    &&& digits_end(line, 6) < line.len()
    &&& line[digits_end(line, 6)] == 44
}

/// The line with the digits of its leading id replaced by `newid`;
/// everything from the comma after the old digits onwards is kept verbatim.
pub open spec fn rewrite_id_spec(line: Seq<u8>, newid: nat) -> Seq<u8> {
    id_prefix() + dec_digits(newid) + line.skip(digits_end(line, 6))
}

/// The line ends with `}`, so the splicer may edit it.
pub open spec fn ends_with_brace(line: Seq<u8>) -> bool {
    line.len() >= 1 && line.last() == 125
}

/// The line with `,"cluster_size":<size>` spliced before the closing brace.
pub open spec fn splice_size_spec(line: Seq<u8>, size: nat) -> Seq<u8> {
    line.take(line.len() - 1) + cluster_size_label() + dec_digits(size) + seq![125u8]
}

/// Replace the digits of the leading `{"id":<digits>,` by `newid`.
/// Returns `None` exactly when the line does not carry that prefix.
pub fn rewrite_id(line: &Vec<u8>, newid: usize) -> (r: Option<Vec<u8>>)
    ensures
        match r {
            Some(out) => has_id_prefix(line@) && out@ == rewrite_id_spec(line@, newid as nat),
            None => !has_id_prefix(line@),
        },
{
    if line.len() < 8 {
        return None;
    }
    if !(line[0] == 123 && line[1] == 34 && line[2] == 105 && line[3] == 100 && line[4] == 34
        && line[5] == 58) {
        proof {
            assert(line@.take(6) != id_prefix());
        }
        return None;
    }
    proof {
        assert(line@.take(6) =~= id_prefix());
    }
    let n = line.len();
    let mut k: usize = 6;
    while k < n && line[k] >= 48 && line[k] <= 57
        invariant
            6 <= k <= n,
            n == line@.len(),
            digits_end(line@, 6) == digits_end(line@, k as int),
        decreases n - k,
    {
        k = k + 1;
    }
    proof {
        assert(digits_end(line@, k as int) == k);
    }
    if k == 6 || k >= n || line[k] != 44 {
        return None;
    }
    let mut out: Vec<u8> = Vec::new();
    out.push(123);
    out.push(34);
    out.push(105);
    out.push(100);
    out.push(34);
    out.push(58);
    proof {
        assert(out@ =~= id_prefix());
    }
    push_decimal(&mut out, newid);
    let mut j: usize = k;
    while j < n
        invariant
            k <= j <= n,
            n == line@.len(),
            out@ == id_prefix() + dec_digits(newid as nat) + line@.subrange(k as int, j as int),
        decreases n - j,
    {
        out.push(line[j]);
        proof {
            assert(line@.subrange(k as int, j + 1) =~= line@.subrange(k as int, j as int)
                + seq![line@[j as int]]);
        }
        j = j + 1;
    }
    proof {
        assert(line@.subrange(k as int, n as int) =~= line@.skip(k as int));
    }
    Some(out)
}

/// Splice `,"cluster_size":<size>` before the closing brace of the line.
/// Returns `None` exactly when the line does not end with `}`.
pub fn splice_cluster_size(line: &Vec<u8>, size: usize) -> (r: Option<Vec<u8>>)
    ensures
        match r {
            Some(out) => ends_with_brace(line@) && out@ == splice_size_spec(
                line@,
                size as nat,
            ),
            None => !ends_with_brace(line@),
        },
{
    let n = line.len();
    if n == 0 || line[n - 1] != 125 {
        return None;
    }
    let mut out: Vec<u8> = Vec::new();
    let mut j: usize = 0;
    while j < n - 1
        invariant
            j <= n - 1,
            n == line@.len(),
            n >= 1,
            out@ == line@.subrange(0, j as int),
        decreases n - j,
    {
        out.push(line[j]);
        proof {
            assert(line@.subrange(0, j + 1) =~= line@.subrange(0, j as int)
                + seq![line@[j as int]]);
        }
        j = j + 1;
    }
    proof {
        assert(line@.subrange(0, n - 1) =~= line@.take(n - 1));
    }
    out.push(44);
    out.push(34);
    out.push(99);
    out.push(108);
    out.push(117);
    out.push(115);
    out.push(116);
    out.push(101);
    out.push(114);
    out.push(95);
    out.push(115);
    out.push(105);
    out.push(122);
    out.push(101);
    out.push(34);
    out.push(58);
    proof {
        assert(out@ =~= line@.take(n - 1) + cluster_size_label());
    }
    push_decimal(&mut out, size);
    out.push(125);
    proof {
        assert(out@ =~= splice_size_spec(line@, size as nat));
    }
    Some(out)
}

pub proof fn lemma_roots_below_le(p: Seq<usize>, k: int)
    requires
        0 <= k <= p.len(),
    ensures
        roots_below(p, k) <= k,
    decreases k,
{
    if k > 0 {
        lemma_roots_below_le(p, k - 1);
    }
}

/// Why a line could not be filtered.
#[derive(PartialEq, Eq, Structural, Clone, Copy, Debug)]
pub enum DedupError {
    /// More lines were read than the cluster file announced.
    TooManyRecords,
    /// Fewer lines were read than the cluster file announced.
    CountMismatch,
    /// The cluster-size splicer was asked to edit a line that does not end with `}`.
    MissingClosingBrace,
    /// Id re-assignment was asked on a line that does not begin `{"id":<digits>,`.
    BadIdPrefix,
}

/// Second-pass filter over the JSONL lines, honoring a cluster assignment.
///
/// For the line at index `i`: when `parents[i] != i` the document is a
/// duplicate and is dropped (or, with `print_duplicates`, is the only kind
/// printed); when `parents[i] == i` it is the representative of its cluster
/// and is emitted, optionally with its id re-assigned to the 1-based
/// survivor counter and with `,"cluster_size":<n>` spliced in.
pub struct DedupFilter {
    pub num_docs: usize,
    pub num_read_docs: usize,
    pub num_unique: usize,
    pub print_duplicates: bool,
    pub reassign_ids: bool,
    pub uf: UnionFind,
    pub cluster_sizes: Option<Vec<usize>>,
}

impl DedupFilter {
    pub open spec fn wf(&self) -> bool {
        &&& self.uf.wf()
        &&& flattened(self.uf@)
        &&& self.num_docs == self.uf@.len()
        &&& self.num_read_docs <= self.num_docs
        &&& match self.cluster_sizes {
            Some(cs) => cs@.len() == self.num_docs && forall|r: int|
                0 <= r < cs@.len() ==> cs@[r] == count_eq(self.uf@, r),
            None => true,
        }
        &&& if self.print_duplicates {
            self.num_unique == 0
        } else {
            self.num_unique == roots_below(self.uf@, self.num_read_docs as int)
        }
    }

    pub open spec fn print_duplicates_mode(&self) -> bool {
        self.print_duplicates
    }

    pub open spec fn reassigns_ids(&self) -> bool {
        self.reassign_ids
    }

    pub open spec fn adds_cluster_size(&self) -> bool {
        self.cluster_sizes is Some
    }

    /// Take the cluster assignment, flatten it, and precompute cluster
    /// sizes when asked to splice them. Cluster structure is preserved.
    pub fn new(uf: UnionFind, print_duplicates: bool, add_cluster_size: bool, reassign_ids: bool)
        -> (f: DedupFilter)
        requires
            uf.wf(),
        ensures
            f.wf(),
            f.num_docs == uf@.len(),
            f.num_read_docs == 0,
            f.num_unique == 0,
            f.print_duplicates_mode() == print_duplicates,
            f.reassigns_ids() == reassign_ids,
            f.adds_cluster_size() == add_cluster_size,
            forall|z: int| 0 <= z < uf@.len() ==> root_of(f.uf@, z) == root_of(uf@, z),
    {
        let mut uf = uf;
        uf.flatten();
        let num_docs = uf.len();
        let sizes = if add_cluster_size {
            Some(compute_cluster_sizes(&uf.parents))
        } else {
            None
        };
        DedupFilter {
            num_docs,
            num_read_docs: 0,
            num_unique: 0,
            print_duplicates,
            reassign_ids,
            uf,
            cluster_sizes: sizes,
        }
    }

    /// What the filter does with the line at the current index: `None` to
    /// drop it, or the bytes to emit.
    pub open spec fn spec_output(&self, line: Seq<u8>) -> Result<Option<Seq<u8>>, DedupError> {
        let i = self.num_read_docs as int;
        if i >= self.num_docs {
            Err(DedupError::TooManyRecords)
        } else if self.print_duplicates {
            if self.uf@[i] == i {
                Ok(None)
            } else {
                Ok(Some(line))
            }
        } else if self.uf@[i] != i {
            Ok(None)
        } else if self.adds_cluster_size() && !ends_with_brace(line) {
            Err(DedupError::MissingClosingBrace)
        } else if self.reassign_ids && !has_id_prefix(line) {
            Err(DedupError::BadIdPrefix)
        } else {
            let renamed = if self.reassign_ids {
                rewrite_id_spec(line, (self.num_unique + 1) as nat)
            } else {
                line
            };
            if self.adds_cluster_size() {
                Ok(Some(splice_size_spec(renamed, count_eq(self.uf@, self.uf@[i] as int))))
            } else {
                Ok(Some(renamed))
            }
        }
    }

    /// Handle one input line. The document index is the number of lines
    /// read so far; exactly the representatives (`parents[i] == i`) are
    /// kept, and with `print_duplicates` exactly the others are printed.
    pub fn filter_line(&mut self, line: &Vec<u8>) -> (r: Result<Option<Vec<u8>>, DedupError>)
        requires
            old(self).wf(),
        ensures
            final(self).wf(),
            final(self).uf == old(self).uf,
            final(self).num_docs == old(self).num_docs,
            final(self).print_duplicates_mode() == old(self).print_duplicates_mode(),
            final(self).reassigns_ids() == old(self).reassigns_ids(),
            final(self).adds_cluster_size() == old(self).adds_cluster_size(),
            final(self).cluster_sizes == old(self).cluster_sizes,
            match r {
                Ok(out) => {
                    &&& match out {
                        Some(v) => old(self).spec_output(line@) == Ok::<_, DedupError>(
                            Some(v@),
                        ),
                        None => old(self).spec_output(line@) == Ok::<_, DedupError>(
                            None::<Seq<u8>>,
                        ),
                    }
                    &&& final(self).num_read_docs == old(self).num_read_docs + 1
                    &&& final(self).num_unique == old(self).num_unique + (
                    if !old(self).print_duplicates_mode() && old(self).uf@[old(
                        self,
                    ).num_read_docs as int] == old(self).num_read_docs {
                        1int
                    } else {
                        0int
                    })
                },
                Err(e) => {
                    &&& old(self).spec_output(line@) == Err::<Option<Seq<u8>>, _>(e)
                    &&& *final(self) == *old(self)
                },
            },
    {
        let i = self.num_read_docs;
        if i >= self.num_docs {
            return Err(DedupError::TooManyRecords);
        }
        let parent = self.uf.parents[i];
        if self.print_duplicates {
            self.num_read_docs = i + 1;
            proof {
                assert(roots_below(self.uf@, i + 1) == roots_below(self.uf@, i as int) + (
                if self.uf@[i as int] == i {
                    1nat
                } else {
                    0nat
                }));
            }
            if parent != i {
                return Ok(Some(clone_bytes(line)));
            } else {
                return Ok(None);
            }
        }
        if parent != i {
            self.num_read_docs = i + 1;
            proof {
                assert(roots_below(self.uf@, i + 1) == roots_below(self.uf@, i as int));
            }
            return Ok(None);
        }
        // the line survives; validate before editing
        if self.cluster_sizes.is_some() {
            let n = line.len();
            if n == 0 || line[n - 1] != 125 {
                return Err(DedupError::MissingClosingBrace);
            }
        }
        proof {
            lemma_roots_below_le(self.uf@, i as int);
        }
        let renamed = if self.reassign_ids {
            match rewrite_id(line, self.num_unique + 1) {
                Some(v) => v,
                None => {
                    return Err(DedupError::BadIdPrefix);
                },
            }
        } else {
            clone_bytes(line)
        };
        let out = match &self.cluster_sizes {
            Some(sizes) => {
                let csize = sizes[parent];
                match splice_cluster_size(&renamed, csize) {
                    Some(v) => v,
                    None => {
                        proof {
                            // renaming keeps the final byte, so the brace
                            // check on the input line carries over
                            assert(ends_with_brace(renamed@));
                        }
                        return Err(DedupError::MissingClosingBrace);
                    },
                }
            },
            None => renamed,
        };
        self.num_read_docs = i + 1;
        self.num_unique = self.num_unique + 1;
        proof {
            assert(roots_below(self.uf@, i + 1) == roots_below(self.uf@, i as int) + 1);
        }
        Ok(Some(out))
    }

    /// After all files are consumed the number of lines read must equal
    /// the record count of the cluster file.
    pub fn finish(&self) -> (r: Result<(), DedupError>)
        ensures
            r is Ok <==> self.num_read_docs == self.num_docs,
            r is Err ==> r == Err::<(), DedupError>(DedupError::CountMismatch),
    {
        if self.num_read_docs == self.num_docs {
            Ok(())
        } else {
            Err(DedupError::CountMismatch)
        }
    }
}

/// Dedup survival: exactly one representative per cluster survives the
/// filter pass. The pass keeps the line at index `j` iff `parents[j] == j`
/// (by `filter_line`'s contract), and among the members of any index's
/// cluster, the unique such `j` is the cluster's root.
pub proof fn lemma_dedup_survival(f: &DedupFilter, x: int)
    requires
        f.wf(),
        0 <= x < f.num_docs,
    ensures
        crate::unionfind::same_cluster(f.uf@, x, root_of(f.uf@, x)),
        0 <= root_of(f.uf@, x) < f.num_docs,
        f.uf@[root_of(f.uf@, x)] == root_of(f.uf@, x),
        forall|j: int|
            0 <= j < f.num_docs && crate::unionfind::same_cluster(f.uf@, x, j) && f.uf@[j] == j
                ==> j == root_of(f.uf@, x),
{
    crate::unionfind::lemma_unique_survivor(f.uf@, x);
}

/// Count conservation of the filter pass: every line read was either kept
/// or dropped, the kept ones being exactly the representatives among the
/// indices read so far, so `num_unique` plus the dropped count equals
/// `num_read_docs`. That the total equals the cluster file's record count
/// is what `finish` checks.
pub proof fn lemma_count_conservation(f: &DedupFilter)
    requires
        f.wf(),
        !f.print_duplicates_mode(),
    ensures
        f.num_unique == roots_below(f.uf@, f.num_read_docs as int),
        f.num_unique <= f.num_read_docs,
        f.num_unique + (f.num_read_docs - f.num_unique) == f.num_read_docs,
{
    lemma_roots_below_le(f.uf@, f.num_read_docs as int);
}

/// Byte-for-byte copy of a line.
fn clone_bytes(v: &Vec<u8>) -> (r: Vec<u8>)
    ensures
        r@ == v@,
{
    let mut out: Vec<u8> = Vec::new();
    let mut j: usize = 0;
    let n = v.len();
    while j < n
        invariant
            j <= n,
            n == v@.len(),
            out@ == v@.subrange(0, j as int),
        decreases n - j,
    {
        out.push(v[j]);
        proof {
            assert(v@.subrange(0, j + 1) =~= v@.subrange(0, j as int) + seq![v@[j as int]]);
        }
        j = j + 1;
    }
    proof {
        assert(v@.subrange(0, n as int) =~= v@);
    }
    out
}

} // verus!
