//! Content hashes.
use vstd::prelude::*;

verus! {

/// The BLAKE3 hash of some bytes, as hexadecimal digits.
pub uninterp spec fn blake3_hex(data: Seq<u8>) -> Seq<char>;

pub open spec fn lower_hex(c: char) -> bool {
    '0' <= c <= '9' || 'a' <= c <= 'f'
}

/// `blake3::hash` and `Hash::to_hex`: the 256-bit hash as 64 lower-case hexadecimal digits, which
/// depend on the bytes alone.
#[verifier::external_body]
pub(crate) fn hash_hex(data: &[u8]) -> (r: String)
    ensures
        r@ == blake3_hex(data@),
        r@.len() == 64,
        forall|i: int| 0 <= i < 64 ==> lower_hex(#[trigger] r@[i]),
{
    blake3::hash(data).to_hex().to_string()
}

} // verus!
