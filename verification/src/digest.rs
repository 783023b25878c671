//! The whole-file integrity digest of a candidate, computed by a
//! cryptographic hash of its bytes.

use vstd::prelude::*;

verus! {

/// The 32-byte digest of a byte sequence.  The digest is a function of the
/// hashed bytes alone; no shorter statement of its value exists, so the
/// contracts of this library speak of it only through this name.
pub uninterp spec fn blake3_of(data: Seq<u8>) -> Seq<u8>;

/// Relies on blake3::hash: a 32-byte digest that depends on the input bytes
/// alone, in the same way in every process and on every machine.
#[verifier::external_body]
fn blake3_hash(data: &Vec<u8>) -> (r: Vec<u8>)
    ensures
        r@ == blake3_of(data@),
        r@.len() == 32,
{
    blake3::hash(data.as_slice()).as_bytes().to_vec()
}

/// Computes the integrity digest carried alongside a delta stream: the
/// whole-file hash of the candidate bytes, 32 bytes long.
pub fn compute_digest(data: &Vec<u8>) -> (r: Vec<u8>)
    ensures
        r@ == blake3_of(data@),
        r@.len() == 32,
        blake3_of(data@).len() == 32,
{
    blake3_hash(data)
}

} // verus!
