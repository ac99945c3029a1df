//! Torrent metadata: the piece layout and the piece hashes.

use crate::hash::{sha1_digest, sha1_of};
use crate::seqs::all_true;
use crate::text::{all_texts, copy_all_texts, copy_name};
use vstd::prelude::*;

verus! {

/// A SHA-1 hash: of an info dictionary or of a piece.
pub type InfoHash = [u8; 20];

/// The part of the metadata that the info hash covers.
pub struct Info {
    /// Name of the file or of the directory.
    pub name: String,
    /// Length of every piece but the last.
    pub piece_length: u64,
    /// SHA-1 hash of every piece.
    pub pieces: Vec<InfoHash>,
    /// Length of all files together.
    pub length: u64,
}

/// The metadata of a torrent.
pub struct Metainfo {
    /// URL of the main tracker.
    pub announce: String,
    /// Tracker tiers.
    pub announce_list: Vec<Vec<String>>,
    /// Free-form comment.
    pub comment: Option<String>,
    /// The program that made the torrent.
    pub created_by: Option<String>,
    /// Whether the torrent is private: only its trackers may tell of peers.
    pub private: bool,
    /// Hash of the info dictionary.
    pub info_hash: InfoHash,
    /// The info dictionary.
    pub info: Info,
}

impl Metainfo {
    /// Everything is as in `other`.
    pub open spec fn same_as(self, other: Metainfo) -> bool {
        &&& self.announce@ == other.announce@
        &&& all_texts(self.announce_list@) == all_texts(other.announce_list@)
        &&& self.comment == other.comment
        &&& self.created_by == other.created_by
        &&& self.private == other.private
        &&& self.info_hash == other.info_hash
        &&& self.info.same_as(other.info)
    }

    /// A copy.
    pub fn duplicate(&self) -> (r: Metainfo)
        ensures
            r.same_as(*self),
            self.info.wf() ==> r.info.wf(),
    {
        Metainfo {
            announce: self.announce.clone(),
            announce_list: copy_all_texts(&self.announce_list),
            comment: copy_name(&self.comment),
            created_by: copy_name(&self.created_by),
            private: self.private,
            info_hash: self.info_hash,
            info: self.info.duplicate(),
        }
    }
}

/// Whether the pieces but the last fit into the total size.
pub open spec fn layout_ok(num_pieces: int, piece_length: int, total_size: int) -> bool {
    num_pieces > 0 ==> (num_pieces - 1) * piece_length <= total_size
}

/// The length of the piece at `index`: the last piece takes what is left, and
/// there is nothing past it.
pub open spec fn piece_len_at(
    num_pieces: int,
    piece_length: int,
    total_size: int,
    index: int,
) -> int {
    if index >= num_pieces {
        0
    } else if index == num_pieces - 1 {
        total_size - index * piece_length
    } else {
        piece_length
    }
}

/// The lengths of the first `n` pieces, added up.
pub open spec fn pieces_total(
    num_pieces: int,
    piece_length: int,
    total_size: int,
    n: int,
) -> int
    decreases n,
{
    if n <= 0 {
        0
    } else {
        pieces_total(num_pieces, piece_length, total_size, n - 1) + piece_len_at(
            num_pieces,
            piece_length,
            total_size,
            n - 1,
        )
    }
}

/// The bytes of the pieces that are held: their lengths, added up.
pub open spec fn held_bytes(have: Seq<bool>, info: Info) -> int
    decreases have.len(),
{
    if have.len() == 0 {
        0
    } else {
        held_bytes(have.drop_last(), info) + if have.last() {
            info.spec_piece_len(have.len() - 1)
        } else {
            0
        }
    }
}

/// What is held is no more than the first pieces have.
proof fn lemma_held_prefix(have: Seq<bool>, info: Info)
    requires
        info.layout_ok(),
        have.len() <= info.pieces@.len(),
    ensures
        0 <= held_bytes(have, info) <= pieces_total(
            info.pieces@.len() as int,
            info.piece_length as int,
            info.length as int,
            have.len() as int,
        ),
    decreases have.len(),
{
    if have.len() > 0 {
        lemma_held_prefix(have.drop_last(), info);
        lemma_piece_len_bound(info, have.len() - 1);
    }
}

/// What is held is no more than there is.
pub proof fn lemma_held_bound(have: Seq<bool>, info: Info)
    requires
        info.layout_ok(),
        have.len() <= info.pieces@.len(),
    ensures
        0 <= held_bytes(have, info) <= info.length,
{
    let n = info.pieces@.len() as int;
    let pl = info.piece_length as int;
    lemma_held_prefix(have, info);
    if have.len() == n && n > 0 {
        law_pieces_tile(n, pl, info.length as int);
    } else if n > 0 {
        lemma_pieces_prefix(n, pl, info.length as int, have.len() as int);
        assert(have.len() * pl <= (n - 1) * pl) by (nonlinear_arith)
            requires
                have.len() <= n - 1,
                pl >= 0,
        ;
    }
}

/// A piece has a length.
proof fn lemma_piece_len_bound(info: Info, i: int)
    requires
        info.layout_ok(),
        0 <= i < info.pieces@.len(),
    ensures
        0 <= info.spec_piece_len(i),
{
}

/// Holding one more piece never lowers the bytes held.
pub proof fn law_held_bytes_grow(have: Seq<bool>, info: Info, i: int)
    requires
        info.layout_ok(),
        have.len() <= info.pieces@.len(),
        0 <= i < have.len(),
    ensures
        held_bytes(have.update(i, true), info) == held_bytes(have, info) + if have[i] {
            0
        } else {
            info.spec_piece_len(i)
        },
        held_bytes(have.update(i, true), info) >= held_bytes(have, info),
    decreases have.len(),
{
    let t = have.update(i, true);
    if i == have.len() - 1 {
        assert(t.drop_last() =~= have.drop_last());
        lemma_piece_len_bound(info, i);
    } else {
        law_held_bytes_grow(have.drop_last(), info, i);
        assert(t.drop_last() =~= have.drop_last().update(i, true));
    }
}

/// Whoever holds every piece holds the whole torrent.
pub proof fn law_all_held(have: Seq<bool>, info: Info)
    requires
        have.len() == info.pieces@.len() > 0,
        all_true(have),
    ensures
        held_bytes(have, info) == info.length,
{
    let n = have.len() as int;
    lemma_all_held_prefix(have, info, n);
    assert(have.take(n) =~= have);
    law_pieces_tile(n, info.piece_length as int, info.length as int);
}

proof fn lemma_all_held_prefix(have: Seq<bool>, info: Info, k: int)
    requires
        0 <= k <= have.len() <= info.pieces@.len(),
        all_true(have),
    ensures
        held_bytes(have.take(k), info) == pieces_total(
            info.pieces@.len() as int,
            info.piece_length as int,
            info.length as int,
            k,
        ),
    decreases k,
{
    if k > 0 {
        lemma_all_held_prefix(have, info, k - 1);
        assert(have.take(k).drop_last() =~= have.take(k - 1));
        assert(have.take(k).last() == have[k - 1]);
    }
}

/// The pieces tile the torrent: their lengths add up to the total size.
pub proof fn law_pieces_tile(num_pieces: int, piece_length: int, total_size: int)
    requires
        num_pieces > 0,
    ensures
        pieces_total(num_pieces, piece_length, total_size, num_pieces) == total_size,
{
    lemma_pieces_prefix(num_pieces, piece_length, total_size, num_pieces - 1);
}

proof fn lemma_pieces_prefix(num_pieces: int, piece_length: int, total_size: int, n: int)
    requires
        0 <= n < num_pieces,
    ensures
        pieces_total(num_pieces, piece_length, total_size, n) == n * piece_length,
    decreases n,
{
    if n > 0 {
        lemma_pieces_prefix(num_pieces, piece_length, total_size, n - 1);
        assert((n - 1) * piece_length + piece_length == n * piece_length) by (nonlinear_arith);
    } else {
        assert(0 * piece_length == 0);
    }
}

/// The length of the piece at `index`.
pub fn piece_len(num_pieces: usize, piece_length: u64, total_size: u64, index: u32) -> (n: u64)
    requires
        layout_ok(num_pieces as int, piece_length as int, total_size as int),
    ensures
        n == piece_len_at(num_pieces as int, piece_length as int, total_size as int, index as int),
{
    let idx: u64 = index as u64;
    let count: u64 = num_pieces as u64;
    if idx >= count {
        return 0;
    }
    proof {
        assert(0 <= idx * piece_length <= (num_pieces - 1) * piece_length) by (nonlinear_arith)
            requires
                0 <= idx <= num_pieces - 1,
                piece_length >= 0,
        ;
    }
    let start: u64 = idx * piece_length;
    if idx == count - 1 {
        total_size - start
    } else {
        piece_length
    }
}

impl Info {
    /// The number of pieces, as contracts speak of it.
    pub open spec fn spec_num_pieces(self) -> nat {
        self.pieces@.len()
    }

    /// The pieces but the last fit into the total size.
    pub open spec fn layout_ok(self) -> bool {
        layout_ok(self.pieces@.len() as int, self.piece_length as int, self.length as int)
    }

    /// The layout is consistent, and every piece fits into memory and into the
    /// offsets of a block request.
    pub open spec fn wf(self) -> bool {
        &&& self.layout_ok()
        &&& forall|i: int|
            0 <= i < self.pieces@.len() ==> #[trigger] self.spec_piece_len(i) <= 0x1_0000_0000
                && self.spec_piece_len(i) <= usize::MAX
    }

    /// The length of the piece at `index`, as contracts speak of it.
    pub open spec fn spec_piece_len(self, index: int) -> int {
        piece_len_at(
            self.pieces@.len() as int,
            self.piece_length as int,
            self.length as int,
            index,
        )
    }

    /// The layout, the hashes and the name are those of `other`.
    pub open spec fn same_as(self, other: Info) -> bool {
        &&& self.name@ == other.name@
        &&& self.piece_length == other.piece_length
        &&& self.pieces@ == other.pieces@
        &&& self.length == other.length
    }

    /// A copy.
    pub fn duplicate(&self) -> (r: Info)
        ensures
            r.same_as(*self),
            self.wf() ==> r.wf(),
    {
        let mut pieces: Vec<InfoHash> = Vec::new();
        let mut i: usize = 0;
        while i < self.pieces.len()
            invariant
                i <= self.pieces@.len(),
                pieces@ == self.pieces@.take(i as int),
            decreases self.pieces@.len() - i,
        {
            pieces.push(self.pieces[i]);
            i += 1;
            assert(pieces@ =~= self.pieces@.take(i as int));
        }
        assert(pieces@ =~= self.pieces@);
        let r = Info {
            name: self.name.clone(),
            piece_length: self.piece_length,
            pieces,
            length: self.length,
        };
        proof {
            if self.wf() {
                assert forall|j: int| 0 <= j < r.pieces@.len() implies #[trigger] r.spec_piece_len(
                    j,
                ) <= 0x1_0000_0000 && r.spec_piece_len(j) <= usize::MAX by {
                    assert(r.spec_piece_len(j) == self.spec_piece_len(j));
                }
            }
        }
        r
    }

    /// Where the last of `n` pieces begins.
    fn last_start(&self, n: u64) -> (r: u128)
        requires
            n > 0,
        ensures
            r == (n - 1) * self.piece_length,
            r <= 0xffff_ffff_ffff_ffff * 0xffff_ffff_ffff_ffff,
    {
        let before: u64 = n - 1;
        let pl: u64 = self.piece_length;
        assert(0 <= before * pl <= 0xffff_ffff_ffff_ffff * 0xffff_ffff_ffff_ffff)
            by (nonlinear_arith)
            requires
                0 <= before <= 0xffff_ffff_ffff_ffff,
                0 <= pl <= 0xffff_ffff_ffff_ffff,
        ;
        before as u128 * pl as u128
    }

    /// Whether the layout is consistent, and every piece fits into memory and
    /// into the offsets of a block request.
    pub fn is_consistent(&self) -> (r: bool)
        ensures
            r == self.wf(),
    {
        let n: u64 = self.pieces.len() as u64;
        if n == 0 {
            return true;
        }
        let start: u128 = self.last_start(n);
        if start > self.length as u128 {
            return false;
        }
        let last: u64 = self.length - start as u64;
        let longest: u64 = if n > 1 && self.piece_length > last {
            self.piece_length
        } else {
            last
        };
        let r = longest <= 0x1_0000_0000 && longest <= usize::MAX as u64;
        proof {
            assert(self.spec_piece_len(n - 1) == last);
            assert(n > 1 ==> self.spec_piece_len(0) == self.piece_length);
            assert forall|i: int| 0 <= i < n implies #[trigger] self.spec_piece_len(i) <= longest by {}
        }
        r
    }

    /// Whether the pieces cover the torrent with none to spare.
    pub fn is_exact(&self) -> (r: bool)
        ensures
            r == exact_layout(*self),
    {
        let n: u64 = self.pieces.len() as u64;
        if self.piece_length == 0 {
            return false;
        }
        if n == 0 {
            return self.length == 0;
        }
        let start: u128 = self.last_start(n);
        assert(n * self.piece_length == start + self.piece_length) by (nonlinear_arith)
            requires
                start == (n - 1) * self.piece_length,
        ;
        start < self.length as u128 && self.length as u128 <= start + self.piece_length as u128
    }

    /// The bytes of the pieces that are held.
    pub fn held_bytes(&self, have: &Vec<bool>) -> (n: u64)
        requires
            self.layout_ok(),
            have@.len() <= self.pieces@.len(),
            have@.len() <= u32::MAX,
        ensures
            n == held_bytes(have@, *self),
    {
        let mut n: u64 = 0;
        let mut i: usize = 0;
        assert(have@.take(0) =~= Seq::<bool>::empty());
        while i < have.len()
            invariant
                i <= have@.len() <= self.pieces@.len(),
                have@.len() <= u32::MAX,
                self.layout_ok(),
                n == held_bytes(have@.take(i as int), *self),
            decreases have@.len() - i,
        {
            proof {
                assert(have@.take(i + 1).drop_last() =~= have@.take(i as int));
                assert(have@.take(i + 1).last() == have@[i as int]);
                lemma_held_bound(have@.take(i + 1), *self);
            }
            if have[i] {
                n = n + self.piece_len_for_index(i as u32);
            }
            i += 1;
        }
        assert(have@.take(i as int) =~= have@);
        n
    }

    /// The number of pieces.
    pub fn num_pieces(&self) -> (n: usize)
        ensures
            n == self.spec_num_pieces(),
    {
        self.pieces.len()
    }

    /// The length of all files together.
    pub fn total_size(&self) -> (n: u64)
        ensures
            n == self.length,
    {
        self.length
    }

    /// Length of the piece at `index` (the last piece may be shorter).
    pub fn piece_len_for_index(&self, index: u32) -> (n: u64)
        requires
            self.layout_ok(),
        ensures
            n == self.spec_piece_len(index as int),
    {
        piece_len(self.pieces.len(), self.piece_length, self.length, index)
    }
}

/// The length of the piece at `index`, counted from the total size.
pub open spec fn len_at(piece_length: int, total_size: int, index: int) -> int {
    if index < total_size / piece_length {
        piece_length
    } else if index == total_size / piece_length && total_size % piece_length > 0 {
        total_size % piece_length
    } else {
        0
    }
}

/// Where the layout is exact, the length that is counted from the total size is
/// the length that is counted from the number of pieces.
pub proof fn law_lengths_agree(num_pieces: int, piece_length: int, total_size: int, index: int)
    requires
        piece_length > 0,
        0 <= index,
        (num_pieces - 1) * piece_length < total_size <= num_pieces * piece_length,
    ensures
        len_at(piece_length, total_size, index) == piece_len_at(
            num_pieces,
            piece_length,
            total_size,
            index,
        ),
{
    let q = total_size / piece_length;
    let r = total_size % piece_length;
    vstd::arithmetic::div_mod::lemma_fundamental_div_mod(total_size, piece_length);
    assert(r == 0 ==> q == num_pieces) by (nonlinear_arith)
        requires
            piece_length > 0,
            piece_length * q + r == total_size,
            (num_pieces - 1) * piece_length < total_size <= num_pieces * piece_length,
    ;
    assert(0 < r < piece_length ==> q == num_pieces - 1) by (nonlinear_arith)
        requires
            piece_length > 0,
            piece_length * q + r == total_size,
            (num_pieces - 1) * piece_length < total_size <= num_pieces * piece_length,
    ;
    assert((num_pieces - 1) * piece_length == num_pieces * piece_length - piece_length)
        by (nonlinear_arith);
    assert(q * piece_length == piece_length * q) by (nonlinear_arith);
}

/// Whether the pieces cover the torrent with none to spare.
pub open spec fn exact_layout(info: Info) -> bool {
    let n = info.pieces@.len() as int;
    let pl = info.piece_length as int;
    &&& pl > 0
    &&& info.length <= n * pl
    &&& n > 0 ==> (n - 1) * pl < info.length
}

/// The bytes of the piece at `index`.
pub open spec fn piece_bytes(info: Info, content: Seq<u8>, index: int) -> Seq<u8> {
    let pl = info.piece_length as int;
    content.subrange(index * pl, index * pl + len_at(pl, info.length as int, index))
}

/// Whether the piece hashes are those of the content.
pub open spec fn hashes_match(info: Info, content: Seq<u8>) -> bool {
    &&& content.len() == info.length
    &&& forall|i: int|
        0 <= i < info.pieces@.len() ==> #[trigger] info.pieces@[i]@ == sha1_of(
            piece_bytes(info, content, i),
        )
}

/// The full pieces of the data, and nothing more, are hashed.
pub open spec fn full_hashes(pieces: Seq<InfoHash>, piece_length: int, data: Seq<u8>) -> bool {
    &&& pieces.len() * piece_length <= data.len()
    &&& forall|i: int|
        0 <= i < pieces.len() ==> #[trigger] pieces[i]@ == sha1_of(
            data.subrange(i * piece_length, i * piece_length + piece_length),
        )
}

/// Hashes data, piece by piece, as it comes in. Its view is the data so far.
pub struct MetainfoBuilder {
    piece_length: u32,
    pieces: Vec<InfoHash>,
    partial: Vec<u8>,
    total: u64,
    data: Ghost<Seq<u8>>,
}

impl View for MetainfoBuilder {
    type V = Seq<u8>;

    closed spec fn view(&self) -> Seq<u8> {
        self.data@
    }
}

impl MetainfoBuilder {
    /// The piece length, as contracts speak of it.
    pub closed spec fn spec_piece_length(&self) -> u32 {
        self.piece_length
    }

    /// The full pieces are hashed, and what does not fill a piece is kept.
    pub closed spec fn wf(&self) -> bool {
        let pl = self.piece_length as int;
        let n = self.pieces@.len() as int;
        &&& self.total == self.data@.len()
        &&& pl == 0 ==> self.data@.len() == 0 && n == 0
        &&& pl > 0 ==> self.partial@.len() < pl
        &&& full_hashes(self.pieces@, pl, self.data@)
        &&& self.partial@ == self.data@.skip(n * pl)
    }

    /// Start with pieces of the given length and no data.
    pub fn new(piece_length: u32) -> (b: MetainfoBuilder)
        ensures
            b.wf(),
            b@ == Seq::<u8>::empty(),
            b.spec_piece_length() == piece_length,
    {
        let b = MetainfoBuilder {
            piece_length,
            pieces: Vec::new(),
            partial: Vec::new(),
            total: 0,
            data: Ghost(Seq::empty()),
        };
        proof {
            assert(b.partial@ =~= b.data@.skip(0));
        }
        b
    }

    /// The length of the data so far.
    pub fn total_length(&self) -> (n: u64)
        requires
            self.wf(),
        ensures
            n == self@.len(),
    {
        self.total
    }

    /// Add data at the end.
    pub fn add_data(&mut self, data: &[u8])
        requires
            old(self).wf(),
            old(self).spec_piece_length() > 0 || data@.len() == 0,
            old(self)@.len() + data@.len() <= u64::MAX,
        ensures
            final(self).wf(),
            final(self)@ == old(self)@ + data@,
            final(self).spec_piece_length() == old(self).spec_piece_length(),
    {
        let pl: usize = self.piece_length as usize;
        let mut at: usize = 0;
        assert(old(self)@ + data@.take(0) =~= old(self)@);
        while at < data.len()
            invariant
                self.wf(),
                at <= data@.len(),
                pl == self.piece_length,
                self.piece_length == old(self).piece_length,
                pl > 0 || data@.len() == 0,
                self.data@ == old(self).data@ + data@.take(at as int),
                old(self).data@.len() + data@.len() <= u64::MAX,
            decreases data@.len() - at,
        {
            let room: usize = pl - self.partial.len();
            let left: usize = data.len() - at;
            let n: usize = if left < room {
                left
            } else {
                room
            };
            let chunk = vstd::slice::slice_subrange(data, at, at + n);
            let ghost before = self.data@;
            let ghost count = self.pieces@.len() as int;
            let ghost hashes = self.pieces@;
            self.partial.extend_from_slice(chunk);
            self.total = self.total + n as u64;
            self.data = Ghost(before + chunk@);
            proof {
                assert(self.data@ =~= old(self).data@ + data@.take(at + n));
                assert(self.partial@ =~= self.data@.skip(count * pl));
                lemma_hashes_kept(hashes, pl as int, before, chunk@);
            }
            at += n;
            if self.partial.len() == pl {
                let digest = sha1_digest(self.partial.as_slice());
                self.pieces.push(digest);
                proof {
                    assert(self.partial@ =~= self.data@.subrange(count * pl, count * pl + pl));
                    assert((count + 1) * pl == count * pl + pl) by (nonlinear_arith);
                    assert forall|i: int| 0 <= i < count + 1 implies #[trigger] self.pieces@[i]@
                        == sha1_of(self.data@.subrange(i * pl, i * pl + pl)) by {}
                    assert(self.data@.skip((count + 1) * pl) =~= Seq::<u8>::empty());
                }
                self.partial.clear();
                assert(self.partial@ =~= self.data@.skip((count + 1) * pl));
            }
        }
        assert(data@.take(at as int) =~= data@);
    }

    /// Finish: the layout and the hashes of the data, under the given name. What
    /// does not fill a piece becomes the last piece.
    pub fn finish(self, name: String) -> (info: Info)
        requires
            self.wf(),
        ensures
            info.name@ == name@,
            info.piece_length == self.spec_piece_length(),
            info.length == self@.len(),
            self.spec_piece_length() > 0 ==> exact_layout(info),
            hashes_match(info, self@),
            self@.len() == 0 ==> info.pieces@.len() == 0,
    {
        let mut pieces = self.pieces;
        let ghost pl = self.piece_length as int;
        let ghost n = pieces@.len() as int;
        let ghost data = self.data@;
        if self.partial.len() > 0 {
            pieces.push(sha1_digest(self.partial.as_slice()));
        }
        let info = Info {
            name,
            piece_length: self.piece_length as u64,
            pieces,
            length: self.total,
        };
        proof {
            let total = data.len() as int;
            if pl > 0 {
                let r = self.partial@.len() as int;
                vstd::arithmetic::div_mod::lemma_fundamental_div_mod_converse(total, pl, n, r);
                assert((n + 1) * pl == n * pl + pl) by (nonlinear_arith);
                assert(n > 0 ==> (n - 1) * pl == n * pl - pl) by (nonlinear_arith);
                assert forall|i: int| 0 <= i < info.pieces@.len() implies #[trigger] info.pieces@[i]@
                    == sha1_of(piece_bytes(info, data, i)) by {
                    if i >= n {
                        assert(piece_bytes(info, data, i) =~= self.partial@);
                    }
                }
            }
        }
        info
    }
}

proof fn lemma_hashes_kept(pieces: Seq<InfoHash>, pl: int, data: Seq<u8>, more: Seq<u8>)
    requires
        pl >= 0,
        full_hashes(pieces, pl, data),
    ensures
        full_hashes(pieces, pl, data + more),
{
    assert forall|i: int| 0 <= i < pieces.len() implies #[trigger] pieces[i]@ == sha1_of(
        (data + more).subrange(i * pl, i * pl + pl),
    ) by {
        assert(i * pl + pl <= pieces.len() * pl) by (nonlinear_arith)
            requires
                0 <= i < pieces.len(),
                pl >= 0,
        ;
        assert(0 <= i * pl) by (nonlinear_arith)
            requires
                0 <= i,
                pl >= 0,
        ;
        assert((data + more).subrange(i * pl, i * pl + pl) =~= data.subrange(
            i * pl,
            i * pl + pl,
        ));
    }
}

/// All pieces but the last have the piece length, the last one ends with the
/// torrent, and past it there is nothing. So each piece starts where the one
/// before it ends.
pub proof fn law_piece_len(num_pieces: int, piece_length: int, total_size: int, index: int)
    requires
        0 <= index,
    ensures
        ({
            let n = piece_len_at(num_pieces, piece_length, total_size, index);
            &&& index + 1 < num_pieces ==> n == piece_length
            &&& index + 1 == num_pieces ==> index * piece_length + n == total_size
            &&& index >= num_pieces ==> n == 0
        }),
{
}

/// Nothing is held of a torrent of which no piece is, and a piece that is held
/// counts with its length.
pub proof fn law_held_bytes(have: Seq<bool>, info: Info, b: bool)
    ensures
        held_bytes(Seq::empty(), info) == 0,
        held_bytes(have.push(b), info) == held_bytes(have, info) + if b {
            info.spec_piece_len(have.len() as int)
        } else {
            0
        },
{
    assert(have.push(b).drop_last() =~= have);
}

} // verus!
