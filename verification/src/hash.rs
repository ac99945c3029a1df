//! SHA-1.

use crate::collections::Key;
use crate::metainfo::InfoHash;
use vstd::prelude::*;

verus! {

/// The SHA-1 digest of a string of bytes.
pub uninterp spec fn sha1_of(data: Seq<u8>) -> Seq<u8>;

/// `sha1::Sha1::digest`: its result is a function of the bytes alone. Which
/// function it is (FIPS 180-4) is left unsaid.
#[verifier::external_body]
pub(crate) fn sha1_digest(data: &[u8]) -> (digest: InfoHash)
    ensures
        digest@ == sha1_of(data@),
{
    <sha1::Sha1 as sha1::Digest>::digest(data).into()
}

/// Whether two digests are equal.
pub fn same_hash(computed: &InfoHash, expected: &InfoHash) -> (r: bool)
    ensures
        r == (computed@ == expected@),
        r == (*computed == *expected),
{
    let r = computed.same(expected);
    assert(computed@ == expected@ ==> *computed =~= *expected);
    r
}

/// Compute SHA-1 of `data` and compare with `expected`.
pub fn verify_piece_hash(data: &[u8], expected: InfoHash) -> (ok: bool)
    ensures
        ok == (sha1_of(data@) == expected@),
{
    let computed = sha1_digest(data);
    same_hash(&computed, &expected)
}

} // verus!
