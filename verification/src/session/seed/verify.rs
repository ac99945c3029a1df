//! Verification of stored data against the piece hashes.

use super::source::DataSource;
use super::storage::{filled, DataSourceStorage};
use crate::error::Error;
use crate::hash::{sha1_of, verify_piece_hash};
use crate::metainfo::{exact_layout, hashes_match, law_lengths_agree, len_at, piece_bytes, Info};
use crate::seqs::{count_where, is_set};
use vstd::prelude::*;

verus! {

/// The bytes that a storage holds for a piece.
pub open spec fn stored_piece(info: Info, content: Seq<u8>, index: int) -> Seq<u8> {
    filled(content, index * info.piece_length, info.spec_piece_len(index))
}

/// Whether the bytes that are stored for a piece hash to what is expected.
pub open spec fn piece_verifies(info: Info, content: Seq<u8>, index: int) -> bool {
    sha1_of(stored_piece(info, content, index)) == info.pieces@[index]@
}

/// Which of the pieces verify.
pub open spec fn verified_pieces(info: Info, content: Seq<u8>) -> Seq<bool> {
    Seq::new(info.pieces@.len(), |i: int| piece_verifies(info, content, i))
}

/// Whether the pieces below `k` were checked and the others left alone.
pub open spec fn marked_below(before: Seq<bool>, after: Seq<bool>, ok: Seq<bool>, k: int) -> bool {
    &&& 0 <= k < before.len()
    &&& after.len() == before.len()
    &&& forall|i: int| 0 <= i < k ==> #[trigger] after[i] == (before[i] || ok[i])
    &&& forall|i: int| k <= i < after.len() ==> #[trigger] after[i] == before[i]
}

/// Verify existing data against the torrent's piece hashes.
///
/// Reads every piece, hashes it and compares. Pieces that match are marked in
/// `have`; the others keep their mark. Returns the number of pieces that match. A
/// piece that cannot be read ends the search: it and the pieces behind it keep
/// their marks.
pub fn verify_existing<S: DataSource>(
    storage: &DataSourceStorage<S>,
    info: &Info,
    have: &mut Vec<bool>,
) -> (r: Result<usize, Error>)
    requires
        storage.lays_out(*info),
        exact_layout(*info),
        info.pieces@.len() <= u32::MAX,
        info.piece_length <= usize::MAX,
        old(have)@.len() == info.pieces@.len(),
    ensures
        match r {
            Ok(n) => {
                let ok = verified_pieces(*info, storage.spec_source().content());
                &&& n == count_where(ok, is_set())
                &&& final(have)@.len() == old(have)@.len()
                &&& forall|i: int|
                    0 <= i < final(have)@.len() ==> #[trigger] final(have)@[i] == (old(have)@[i]
                        || ok[i])
            },
            Err(_) => {
                let ok = verified_pieces(*info, storage.spec_source().content());
                &&& !storage.spec_source().is_readable()
                &&& exists|k: int| #[trigger] marked_below(old(have)@, final(have)@, ok, k)
            },
        },
{
    let count: usize = info.num_pieces();
    let ghost content = storage.spec_source().content();
    let ghost ok = verified_pieces(*info, content);
    let mut verified: usize = 0;
    let mut i: usize = 0;
    assert(ok.take(0) =~= Seq::<bool>::empty());
    while i < count
        invariant
            i <= count == info.pieces@.len(),
            storage.lays_out(*info),
            exact_layout(*info),
            count <= u32::MAX,
            info.piece_length <= usize::MAX,
            content == storage.spec_source().content(),
            ok == verified_pieces(*info, content),
            have@.len() == count == old(have)@.len(),
            verified == count_where(ok.take(i as int), is_set()),
            verified <= i,
            forall|j: int| 0 <= j < i ==> #[trigger] have@[j] == (old(have)@[j] || ok[j]),
            forall|j: int| i <= j < count ==> #[trigger] have@[j] == old(have)@[j],
        decreases count - i,
    {
        let index: u32 = i as u32;
        proof {
            lemma_piece_fits(*info, i as int);
            assert(ok.take(i + 1).drop_last() =~= ok.take(i as int));
        }
        let len: usize = storage.piece_len_for_index(index) as usize;
        let mut buf: Vec<u8> = vec![0u8; len];
        if let Err(e) = storage.read_piece(index, &mut buf) {
            assert(marked_below(old(have)@, have@, ok, i as int));
            return Err(e);
        }
        assert(buf@ =~= stored_piece(*info, content, i as int));
        if verify_piece_hash(buf.as_slice(), info.pieces[i]) {
            have.set(i, true);
            verified += 1;
        }
        i += 1;
    }
    assert(ok.take(i as int) =~= ok);
    Ok(verified)
}

/// A piece lies within the torrent.
proof fn lemma_piece_fits(info: Info, i: int)
    requires
        exact_layout(info),
        0 <= i < info.pieces@.len(),
    ensures
        info.layout_ok(),
        0 <= i * info.piece_length <= info.length,
        0 < info.spec_piece_len(i) <= info.piece_length,
        i * info.piece_length + info.spec_piece_len(i) <= info.length,
        info.spec_piece_len(i) == len_at(info.piece_length as int, info.length as int, i),
{
    let n = info.pieces@.len() as int;
    let pl = info.piece_length as int;
    assert(i * pl <= (n - 1) * pl) by (nonlinear_arith)
        requires
            i <= n - 1,
            pl > 0,
    ;
    assert(0 <= i * pl) by (nonlinear_arith)
        requires
            0 <= i,
            pl > 0,
    ;
    assert(n * pl == (n - 1) * pl + pl) by (nonlinear_arith);
    assert(i < n - 1 ==> i * pl + pl <= (n - 1) * pl) by (nonlinear_arith)
        requires
            pl > 0,
    ;
    law_lengths_agree(n, pl, info.length as int, i);
}

/// Data that was hashed verifies: with hashes made from the content, every piece
/// that is read from the content matches its hash.
pub proof fn law_hashed_data_verifies(info: Info, content: Seq<u8>, i: int)
    requires
        exact_layout(info),
        hashes_match(info, content),
        0 <= i < info.pieces@.len(),
    ensures
        piece_verifies(info, content, i),
        stored_piece(info, content, i) == piece_bytes(info, content, i),
{
    lemma_piece_fits(info, i);
    assert(stored_piece(info, content, i) =~= piece_bytes(info, content, i));
    assert(info.pieces@[i]@ == sha1_of(piece_bytes(info, content, i)));
}

/// Data that was hashed verifies as a whole: every piece is counted.
pub proof fn law_seed_is_complete(info: Info, content: Seq<u8>)
    requires
        exact_layout(info),
        hashes_match(info, content),
    ensures
        crate::seqs::all_true(verified_pieces(info, content)),
        count_where(verified_pieces(info, content), is_set()) == info.pieces@.len(),
{
    let ok = verified_pieces(info, content);
    assert forall|i: int| 0 <= i < ok.len() implies #[trigger] ok[i] by {
        law_hashed_data_verifies(info, content, i);
    }
    crate::seqs::lemma_count_where(ok, is_set());
}

/// A block that lies within its piece is served as it stands in the content.
pub proof fn law_blocks_are_content(info: Info, content: Seq<u8>, i: int, offset: int, len: int)
    requires
        exact_layout(info),
        content.len() == info.length,
        0 <= i < info.pieces@.len(),
        0 <= offset,
        0 <= len,
        offset + len <= info.spec_piece_len(i),
    ensures
        filled(content, i * info.piece_length + offset, len) == piece_bytes(
            info,
            content,
            i,
        ).subrange(offset, offset + len),
{
    lemma_piece_fits(info, i);
    assert(filled(content, i * info.piece_length + offset, len) =~= piece_bytes(
        info,
        content,
        i,
    ).subrange(offset, offset + len));
}

/// A piece verifies exactly when the bytes at its place have the hash of the
/// metadata.
pub proof fn law_verified(info: Info, content: Seq<u8>, i: int)
    requires
        exact_layout(info),
        content.len() == info.length,
        0 <= i < info.pieces@.len(),
    ensures
        verified_pieces(info, content).len() == info.pieces@.len(),
        verified_pieces(info, content)[i] <==> sha1_of(
            content.subrange(
                i * info.piece_length,
                if i + 1 < info.pieces@.len() {
                    (i + 1) * info.piece_length
                } else {
                    info.length as int
                },
            ),
        ) == info.pieces@[i]@,
{
    lemma_piece_fits(info, i);
    let pl = info.piece_length as int;
    assert((i + 1) * pl == i * pl + pl) by (nonlinear_arith);
    let end = if i + 1 < info.pieces@.len() {
        (i + 1) * pl
    } else {
        info.length as int
    };
    assert(stored_piece(info, content, i) =~= content.subrange(i * pl, end));
}

/// Where the search ended early, a piece before its end is marked if it was or if
/// it verifies; a piece from there on is marked if it was.
pub proof fn law_marked_below(before: Seq<bool>, after: Seq<bool>, ok: Seq<bool>, k: int, i: int)
    requires
        marked_below(before, after, ok, k),
        0 <= i < before.len(),
    ensures
        after.len() == before.len(),
        before[i] ==> after[i],
        i < k && ok[i] ==> after[i],
        after[i] && !before[i] ==> i < k && ok[i],
{
}

/// The search that ended early ended at a piece of the torrent.
pub proof fn law_search_ended(before: Seq<bool>, after: Seq<bool>, ok: Seq<bool>, k: int)
    requires
        marked_below(before, after, ok, k),
    ensures
        0 <= k,
        k + 1 <= before.len(),
        before.len() == after.len(),
{
}

} // verus!
