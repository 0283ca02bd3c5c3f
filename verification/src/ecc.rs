//! Error correction: Reed–Solomon codewords over GF(256), computed by the
//! `reed_solomon` crate.

use crate::capacity::{Capacity, MAX_BLOCK_CODEWORDS};
use reed_solomon::Encoder;
use vstd::prelude::*;

verus! {

/// The error-correction codewords that `reed_solomon` computes for `data`
/// with an encoder made for `ecc_len` of them.
pub uninterp spec fn rs_ecc(data: Seq<u8>, ecc_len: nat) -> Seq<u8>;

/// Every codeword is zero.
pub open spec fn all_zero(codewords: Seq<u8>) -> bool {
    forall|i: int| 0 <= i < codewords.len() ==> codewords[i] == 0
}

/// `Encoder::new(ecc_len)`, `Encoder::encode(data)` and `Buffer::ecc()`: the
/// remainder of the data polynomial, as many codewords as the encoder was
/// made for. The encoder works in a fixed block, so data and error
/// correction together are held to its size. With no nonzero data codeword
/// the division never subtracts, and the remainder stays zero.
#[verifier::external_body]
fn reed_solomon_ecc(data: &[u8], ecc_len: usize) -> (ecc: Vec<u8>)
    requires
        data@.len() + ecc_len <= MAX_BLOCK_CODEWORDS,
    ensures
        ecc@ == rs_ecc(data@, ecc_len as nat),
        ecc@.len() == ecc_len,
        all_zero(data@) ==> all_zero(ecc@),
{
    Encoder::new(ecc_len).encode(data).ecc().to_vec()
}

/// Computes the error-correction codewords of a symbol from its data
/// codewords, most significant first.
pub fn generate(capacity: &Capacity, codewords: &[u8]) -> (ecc: Vec<u8>)
    requires
        codewords@.len() + capacity.ecc_codeword_count <= MAX_BLOCK_CODEWORDS,
    ensures
        ecc@ == rs_ecc(codewords@, capacity@.ecc_codeword_count),
        ecc@.len() == capacity@.ecc_codeword_count,
        all_zero(codewords@) ==> all_zero(ecc@),
{
    reed_solomon_ecc(codewords, capacity.ecc_codeword_count)
}

} // verus!
