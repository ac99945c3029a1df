//! Serves pieces and blocks from a data source.

use super::source::{read_of, DataSource};
use crate::error::Error;
use crate::metainfo::{layout_ok, piece_len, piece_len_at, Info};
use vstd::prelude::*;

verus! {

/// What a read of `len` bytes at `offset` leaves in a buffer: the data, and
/// zeros behind its end.
pub open spec fn filled(content: Seq<u8>, offset: int, len: int) -> Seq<u8> {
    let data = read_of(content, offset, len);
    data + Seq::new((len - data.len()) as nat, |i: int| 0u8)
}

/// A read-only storage backed by a data source: piece indices become offsets
/// into the source. Writes do nothing.
pub struct DataSourceStorage<S> {
    source: S,
    piece_length: u64,
    num_pieces: usize,
    total_size: u64,
}

impl<S: DataSource> DataSourceStorage<S> {
    /// The source, as contracts speak of it.
    pub closed spec fn spec_source(&self) -> S {
        self.source
    }

    /// The piece length, as contracts speak of it.
    pub closed spec fn spec_piece_length(&self) -> u64 {
        self.piece_length
    }

    /// The number of pieces, as contracts speak of it.
    pub closed spec fn spec_num_pieces(&self) -> usize {
        self.num_pieces
    }

    /// The total size, as contracts speak of it.
    pub closed spec fn spec_total_size(&self) -> u64 {
        self.total_size
    }

    /// The storage has the layout of `info`.
    pub open spec fn lays_out(&self, info: Info) -> bool {
        &&& self.spec_piece_length() == info.piece_length
        &&& self.spec_num_pieces() == info.pieces@.len()
        &&& self.spec_total_size() == info.length
    }

    /// The length of a piece, as contracts speak of it.
    pub open spec fn spec_piece_len(&self, index: int) -> int {
        piece_len_at(
            self.spec_num_pieces() as int,
            self.spec_piece_length() as int,
            self.spec_total_size() as int,
            index,
        )
    }

    /// Create a new adapter. `info` is the layout of the pieces in `source`.
    pub fn new(source: S, info: &Info) -> (r: DataSourceStorage<S>)
        ensures
            r.spec_source() == source,
            r.lays_out(*info),
    {
        DataSourceStorage {
            source,
            piece_length: info.piece_length,
            num_pieces: info.num_pieces(),
            total_size: info.total_size(),
        }
    }

    /// Where a piece starts in the source.
    pub fn piece_offset(&self, index: u32) -> (n: u64)
        requires
            index * self.spec_piece_length() <= u64::MAX,
        ensures
            n == index * self.spec_piece_length(),
    {
        index as u64 * self.piece_length
    }

    /// The length of a piece.
    pub fn piece_len_for_index(&self, index: u32) -> (n: u64)
        requires
            layout_ok(
                self.spec_num_pieces() as int,
                self.spec_piece_length() as int,
                self.spec_total_size() as int,
            ),
        ensures
            n == self.spec_piece_len(index as int),
    {
        piece_len(self.num_pieces, self.piece_length, self.total_size, index)
    }

    fn fill(&self, at: u64, buf: &mut Vec<u8>, len: usize) -> (r: Result<(), Error>)
        requires
            len <= old(buf)@.len(),
        ensures
            match r {
                Ok(()) => final(buf)@ == filled(self.spec_source().content(), at as int, len as int)
                    + old(buf)@.skip(len as int),
                Err(_) => final(buf)@ == old(buf)@ && !self.spec_source().is_readable(),
            },
    {
        let data = match self.source.read_at(at, len) {
            Ok(d) => d,
            Err(e) => {
                return Err(e);
            },
        };
        let mut i: usize = 0;
        while i < len
            invariant
                i <= len <= old(buf)@.len(),
                data@.len() <= len,
                buf@.len() == old(buf)@.len(),
                forall|j: int|
                    0 <= j < i ==> buf@[j] == if j < data@.len() {
                        data@[j]
                    } else {
                        0
                    },
                forall|j: int| i <= j < buf@.len() ==> buf@[j] == old(buf)@[j],
            decreases len - i,
        {
            if i < data.len() {
                buf.set(i, data[i]);
            } else {
                buf.set(i, 0);
            }
            i += 1;
        }
        assert(buf@ =~= filled(self.spec_source().content(), at as int, len as int)
            + old(buf)@.skip(len as int));
        Ok(())
    }

    /// Read a block into `buf`: as many bytes as it holds, with zeros behind the
    /// end of the data.
    pub fn read_block(&self, piece: u32, offset: u32, buf: &mut Vec<u8>) -> (r: Result<(), Error>)
        requires
            piece * self.spec_piece_length() + offset <= u64::MAX,
        ensures
            match r {
                Ok(()) => final(buf)@ == filled(
                    self.spec_source().content(),
                    piece * self.spec_piece_length() + offset,
                    old(buf)@.len() as int,
                ),
                Err(_) => final(buf)@ == old(buf)@ && !self.spec_source().is_readable(),
            },
    {
        let at: u64 = self.piece_offset(piece) + offset as u64;
        let len: usize = buf.len();
        let r = self.fill(at, buf, len);
        proof {
            let none = old(buf)@.skip(len as int);
            assert(none =~= Seq::<u8>::empty());
            let all = filled(self.spec_source().content(), at as int, len as int);
            assert(all + none =~= all);
        }
        r
    }

    /// Read a piece into the beginning of `buf`, with zeros behind the end of
    /// the data.
    pub fn read_piece(&self, index: u32, buf: &mut Vec<u8>) -> (r: Result<(), Error>)
        requires
            index * self.spec_piece_length() <= u64::MAX,
            layout_ok(
                self.spec_num_pieces() as int,
                self.spec_piece_length() as int,
                self.spec_total_size() as int,
            ),
            self.spec_piece_len(index as int) <= old(buf)@.len(),
        ensures
            match r {
                Ok(()) => final(buf)@ == filled(
                    self.spec_source().content(),
                    index * self.spec_piece_length(),
                    self.spec_piece_len(index as int),
                ) + old(buf)@.skip(self.spec_piece_len(index as int)),
                Err(_) => final(buf)@ == old(buf)@ && !self.spec_source().is_readable(),
            },
    {
        let room: usize = buf.len();
        assert(self.spec_piece_len(index as int) <= room);
        let at: u64 = self.piece_offset(index);
        let len: usize = self.piece_len_for_index(index) as usize;
        self.fill(at, buf, len)
    }

    /// Writing does nothing: the data is read-only.
    pub fn write_block(&self, _piece: u32, _offset: u32, _data: &[u8]) -> (r: Result<(), Error>)
        ensures
            r is Ok,
    {
        Ok(())
    }

    /// Writing does nothing: the data is read-only.
    pub fn write_piece(&self, _index: u32, _data: &[u8]) -> (r: Result<(), Error>)
        ensures
            r is Ok,
    {
        Ok(())
    }

    /// The number of pieces.
    pub fn num_pieces(&self) -> (n: usize)
        ensures
            n == self.spec_num_pieces(),
    {
        self.num_pieces
    }

    /// The total size.
    pub fn total_size(&self) -> (n: u64)
        ensures
            n == self.spec_total_size(),
    {
        self.total_size
    }
}

/// A read fills the whole buffer: with the bytes of the content from the offset
/// on, and with zeros past its end.
pub proof fn law_filled(content: Seq<u8>, offset: int, len: int, i: int)
    requires
        0 <= offset,
        0 <= i < len,
    ensures
        filled(content, offset, len).len() == len,
        offset + i < content.len() ==> filled(content, offset, len)[i] == content[offset + i],
        offset + i >= content.len() ==> filled(content, offset, len)[i] == 0,
{
}

/// A storage that was laid out for a torrent has its pieces: as many, and each as
/// long.
pub proof fn law_lays_out<S: DataSource>(s: DataSourceStorage<S>, info: Info, i: int)
    requires
        s.lays_out(info),
    ensures
        s.spec_num_pieces() == info.pieces@.len(),
        s.spec_total_size() == info.length,
        s.spec_piece_length() == info.piece_length,
        s.spec_piece_len(i) == info.spec_piece_len(i),
{
}

} // verus!
