//! The bitfield message of a set of pieces.

use super::types::{bit_at, bits_of};
use vstd::prelude::*;

verus! {

/// Whether bytes are the bitfield of a set of pieces: just long enough, the flag
/// of every piece in its place, and the bits to spare clear.
pub open spec fn is_bitfield(bytes: Seq<u8>, have: Seq<bool>) -> bool {
    &&& bytes.len() == (have.len() + 7) / 8
    &&& forall|i: int|
        0 <= i < 8 * bytes.len() ==> #[trigger] bit_at(bytes, i) == (i < have.len() && have[i])
}

/// The bitfield of a set of pieces, first piece in the highest bit.
pub fn to_bitfield(have: &Vec<bool>) -> (r: Vec<u8>)
    ensures
        is_bitfield(r@, have@),
{
    let mut r: Vec<u8> = Vec::new();
    let mut i: usize = 0;
    while i < have.len()
        invariant
            i <= have@.len(),
            r@.len() == (i + 7) / 8,
            forall|j: int|
                0 <= j < 8 * r@.len() ==> #[trigger] bit_at(r@, j) == (j < i && have@[j]),
        decreases have@.len() - i,
    {
        let bit: u8 = (7 - (i % 8)) as u8;
        let ghost before = r@;
        if i % 8 == 0 {
            r.push(0);
        }
        let at: usize = r.len() - 1;
        let b: u8 = r[at];
        if have[i] {
            r.set(at, b | (1u8 << bit));
        }
        proof {
            assert forall|j: int| 0 <= j < 8 * r@.len() implies #[trigger] bit_at(r@, j) == (j < i
                + 1 && have@[j]) by {
                let k = (7 - j % 8) as u8;
                if j / 8 == at {
                    if i % 8 == 0 {
                        assert(0u8 & (1u8 << k) == 0) by (bit_vector);
                    } else {
                        assert(bit_at(before, j) == (j < i && have@[j]));
                    }
                    assert((b | (1u8 << bit)) & (1u8 << k) != 0 <==> (b & (1u8 << k) != 0 || k
                        == bit)) by (bit_vector)
                        requires
                            bit < 8,
                            k < 8,
                    ;
                } else {
                    assert(bit_at(before, j) == (j < i && have@[j]));
                }
            }
        }
        i += 1;
    }
    r
}

/// A bitfield that is sent is read back as the pieces it was made from.
pub proof fn law_bitfield_round_trip(bytes: Seq<u8>, have: Seq<bool>)
    requires
        is_bitfield(bytes, have),
    ensures
        bits_of(bytes, have.len()) == have,
{
    assert forall|i: int| 0 <= i < have.len() implies #[trigger] bits_of(bytes, have.len())[i]
        == have[i] by {}
    assert(bits_of(bytes, have.len()) =~= have);
}

/// A bitfield is no longer than it must be, and its bits to spare are clear.
pub proof fn law_bits_to_spare(bytes: Seq<u8>, have: Seq<bool>, i: int)
    requires
        is_bitfield(bytes, have),
        have.len() <= i < 8 * bytes.len(),
    ensures
        8 * bytes.len() < have.len() + 8,
        (bytes[i / 8] >> ((7 - i % 8) as u8)) % 2 == 0,
{
    let b = bytes[i / 8];
    let s = (7 - i % 8) as u8;
    assert(!bit_at(bytes, i));
    assert(b & (1u8 << s) == 0 ==> (b >> s) % 2 == 0) by (bit_vector)
        requires
            s < 8,
    ;
}

} // verus!
