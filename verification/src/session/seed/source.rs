//! Sources of raw data.

use crate::error::Error;
use vstd::prelude::*;

verus! {

/// What a read of up to `len` bytes at `offset` returns.
pub open spec fn read_of(content: Seq<u8>, offset: int, len: int) -> Seq<u8> {
    if offset >= content.len() {
        Seq::empty()
    } else if offset + len <= content.len() {
        content.subrange(offset, offset + len)
    } else {
        content.skip(offset)
    }
}

/// A source of raw file data for torrent creation and seeding: random access to
/// a range of bytes of known size that does not change.
///
/// The same source is used for hashing and for seeding.
pub trait DataSource {
    /// The data.
    open spec fn content(&self) -> Seq<u8> {
        arbitrary()
    }

    /// The name, as contracts speak of it.
    open spec fn spec_name(&self) -> Seq<char> {
        arbitrary()
    }

    /// Whether no call fails.
    open spec fn is_readable(&self) -> bool {
        arbitrary()
    }

    /// A human-readable name: the default name of the torrent.
    fn name(&self) -> (r: &str)
        ensures
            r@ == self.spec_name(),
    ;

    /// Total size of the data in bytes.
    fn total_size(&self) -> (r: Result<u64, Error>)
        ensures
            match r {
                Ok(n) => n == self.content().len(),
                Err(_) => !self.is_readable(),
            },
    ;

    /// Read up to `len` bytes starting at `offset`. Fewer bytes signal the end
    /// of the data.
    fn read_at(&self, offset: u64, len: usize) -> (r: Result<Vec<u8>, Error>)
        ensures
            match r {
                Ok(data) => data@ == read_of(self.content(), offset as int, len as int),
                Err(_) => !self.is_readable(),
            },
    ;
}

impl DataSource for Vec<u8> {
    open spec fn content(&self) -> Seq<u8> {
        self@
    }

    open spec fn spec_name(&self) -> Seq<char> {
        "memory"@
    }

    open spec fn is_readable(&self) -> bool {
        true
    }

    fn name(&self) -> (r: &str) {
        "memory"
    }

    fn total_size(&self) -> (r: Result<u64, Error>) {
        Ok(self.len() as u64)
    }

    fn read_at(&self, offset: u64, len: usize) -> (r: Result<Vec<u8>, Error>) {
        let total: usize = self.len();
        if offset >= total as u64 {
            let data: Vec<u8> = Vec::new();
            assert(data@ =~= read_of(self@, offset as int, len as int));
            return Ok(data);
        }
        let start: usize = offset as usize;
        let end: usize = if len <= total - start {
            start + len
        } else {
            total
        };
        let part = vstd::slice::slice_subrange(self.as_slice(), start, end);
        let data = crate::seqs::copy_bytes(part);
        assert(data@ =~= read_of(self@, offset as int, len as int));
        Ok(data)
    }
}

/// A read returns the bytes of the content from the offset on: as many as were
/// asked for, or fewer where the content ends.
pub proof fn law_read(content: Seq<u8>, offset: int, len: int, i: int)
    requires
        0 <= offset,
        0 <= len,
    ensures
        ({
            let r = read_of(content, offset, len);
            &&& r.len() <= len
            &&& offset + len <= content.len() ==> r.len() == len
            &&& offset + len > content.len() && offset <= content.len() ==> offset + r.len()
                == content.len()
            &&& offset >= content.len() ==> r.len() == 0
            &&& 0 <= i < r.len() ==> r[i] == content[offset + i]
        }),
{
}

/// Data in memory is its own content, and reading it never fails.
pub proof fn law_memory(v: Vec<u8>)
    ensures
        v.content() == v@,
        v.is_readable(),
        v.spec_name() == "memory"@,
{
}

} // verus!
