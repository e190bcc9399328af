use vstd::prelude::*;

verus! {

/// The bookkeeping of a size-rotating shard writer: shards are numbered
/// from 1, and once the uncompressed bytes written to the current shard
/// exceed `size_bytes`, the next record opens the next shard.
///
/// The rotation decision is taken once per record, before the record is
/// written, so no record is ever split across two shards.
pub struct ZSplit {
    pub size_bytes: usize,
    pub bytes_written: usize,
    pub num_splits: usize,
}

impl ZSplit {
    pub fn new(size_bytes: usize) -> (r: ZSplit)
        ensures
            r.size_bytes == size_bytes,
            r.bytes_written == 0,
            r.num_splits == 1,
    {
        ZSplit { size_bytes, bytes_written: 0, num_splits: 1 }
    }

    /// Account for one record of `len` uncompressed bytes. Returns the
    /// number of the shard to open first when the write must rotate:
    /// exactly when the bytes already written exceed the shard size.
    pub fn note_write(&mut self, len: usize) -> (rotate_to: Option<usize>)
        requires
            old(self).size_bytes + len <= usize::MAX,
            old(self).num_splits < usize::MAX,
        ensures
            final(self).size_bytes == old(self).size_bytes,
            if old(self).bytes_written > old(self).size_bytes {
                &&& rotate_to == Some((old(self).num_splits + 1) as usize)
                &&& final(self).num_splits == old(self).num_splits + 1
                &&& final(self).bytes_written == len
            } else {
                &&& rotate_to is None
                &&& final(self).num_splits == old(self).num_splits
                &&& final(self).bytes_written == old(self).bytes_written + len
            },
    {
        if self.bytes_written > self.size_bytes {
            self.num_splits = self.num_splits + 1;
            self.bytes_written = len;
            Some(self.num_splits)
        } else {
            self.bytes_written = self.bytes_written + len;
            None
        }
    }
}

} // verus!
