//! Hashes a data source piece by piece.

use super::source::DataSource;
use crate::error::{Error, ErrorKind};
use crate::metainfo::MetainfoBuilder;
use vstd::prelude::*;

verus! {

/// The most bytes that are read at once.
pub const MAX_READ: usize = 16_777_216;

/// The piece length for a total size: smaller files get smaller pieces.
pub open spec fn inferred_piece_length(total_size: u64) -> u32 {
    if total_size <= 67_108_864 {
        32_768
    } else if total_size <= 536_870_912 {
        65_536
    } else if total_size <= 1_073_741_824 {
        131_072
    } else if total_size <= 8_589_934_592 {
        262_144
    } else {
        524_288
    }
}

/// Infer a sensible piece length from the total file size: 32 KiB up to 64 MiB,
/// 64 KiB up to 512 MiB, 128 KiB up to 1 GiB, 256 KiB up to 8 GiB, and 512 KiB
/// beyond.
pub fn infer_piece_length(total_size: u64) -> (n: u32)
    ensures
        n == inferred_piece_length(total_size),
{
    if total_size <= 67_108_864 {
        32_768
    } else if total_size <= 536_870_912 {
        65_536
    } else if total_size <= 1_073_741_824 {
        131_072
    } else if total_size <= 8_589_934_592 {
        262_144
    } else {
        524_288
    }
}

/// The piece length to be used for a source.
pub open spec fn piece_length_for(total_size: int, user_override: Option<u32>) -> u32 {
    match user_override {
        Some(pl) => pl,
        None => inferred_piece_length(total_size as u64),
    }
}

/// Determine the piece length to use: what the user asked for, or what the total
/// size suggests.
pub fn resolve_piece_length(total: u64, user_override: Option<u32>) -> (pl: u32)
    ensures
        pl == piece_length_for(total as int, user_override),
{
    match user_override {
        Some(pl) => pl,
        None => infer_piece_length(total),
    }
}

/// Hash a data source whose size is known: read it from front to back and feed
/// it to a builder.
pub(crate) fn hash_sized<S: DataSource>(source: &S, total: u64, piece_length: u32) -> (r: Result<
    MetainfoBuilder,
    Error,
>)
    requires
        total == source.content().len(),
    ensures
        match r {
            Ok(b) => {
                &&& b.wf()
                &&& b@ == source.content()
                &&& b.spec_piece_length() == piece_length
                &&& piece_length > 0 || source.content().len() == 0
            },
            Err(e) => {
                ||| !source.is_readable()
                ||| piece_length == 0 && source.content().len() > 0 && e.spec_kind()
                    == ErrorKind::InvalidInput
            },
        },
{
    let mut builder = MetainfoBuilder::new(piece_length);
    let buf_size: usize = if piece_length as usize <= MAX_READ {
        piece_length as usize
    } else {
        MAX_READ
    };
    let mut offset: u64 = 0;
    assert(source.content().take(0) =~= Seq::<u8>::empty());
    while offset < total
        invariant
            builder.wf(),
            builder.spec_piece_length() == piece_length,
            total == source.content().len(),
            offset <= total,
            builder@ == source.content().take(offset as int),
            buf_size <= piece_length,
            buf_size == 0 <==> piece_length == 0,
            offset > 0 ==> piece_length > 0,
        decreases total - offset,
    {
        let remaining: u64 = total - offset;
        let read_len: usize = if (buf_size as u64) < remaining {
            buf_size
        } else {
            remaining as usize
        };
        let data = match source.read_at(offset, read_len) {
            Ok(d) => d,
            Err(e) => {
                return Err(e);
            },
        };
        if data.len() == 0 {
            return Err(Error::new(ErrorKind::InvalidInput));
        }
        builder.add_data(data.as_slice());
        offset = offset + data.len() as u64;
        assert(builder@ =~= source.content().take(offset as int));
    }
    assert(source.content().take(offset as int) =~= source.content());
    Ok(builder)
}

/// Hash a data source: ask for its size, then read it from front to back and feed
/// it to a builder.
///
/// Fails if the source fails. Fails with `InvalidInput` if the source ends
/// early, and if there is data but the pieces are empty.
pub fn hash_source<S: DataSource>(source: &S, piece_length: u32) -> (r: Result<
    MetainfoBuilder,
    Error,
>)
    ensures
        match r {
            Ok(b) => {
                &&& b.wf()
                &&& b@ == source.content()
                &&& b.spec_piece_length() == piece_length
                &&& piece_length > 0 || source.content().len() == 0
            },
            Err(e) => {
                ||| !source.is_readable()
                ||| piece_length == 0 && source.content().len() > 0 && e.spec_kind()
                    == ErrorKind::InvalidInput
            },
        },
{
    match source.total_size() {
        Ok(total) => hash_sized(source, total, piece_length),
        Err(e) => Err(e),
    }
}

/// The pieces are of 32 KiB up to 64 MiB, 64 KiB up to 512 MiB, 128 KiB up to
/// 1 GiB, 256 KiB up to 8 GiB, and 512 KiB beyond; so more data never gets smaller
/// pieces. What the user asked for goes first.
pub proof fn law_piece_length(size: u64, larger: u64, asked: u32)
    ensures
        inferred_piece_length(size) == 32 * 1024 <==> size <= 64 * 1024 * 1024,
        inferred_piece_length(size) == 64 * 1024 <==> 64 * 1024 * 1024 < size <= 512 * 1024 * 1024,
        inferred_piece_length(size) == 128 * 1024 <==> 512 * 1024 * 1024 < size <= 1024 * 1024
            * 1024,
        inferred_piece_length(size) == 256 * 1024 <==> 1024 * 1024 * 1024 < size <= 8 * 1024 * 1024
            * 1024,
        inferred_piece_length(size) == 512 * 1024 <==> 8 * 1024 * 1024 * 1024 < size,
        size <= larger ==> inferred_piece_length(size) <= inferred_piece_length(larger),
        piece_length_for(size as int, Some(asked)) == asked,
        piece_length_for(size as int, None) == inferred_piece_length(size),
{
}

} // verus!
