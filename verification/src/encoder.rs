//! The encoding pipeline: the mode's encoder, the padder, the error
//! correction, and the function that runs them in turn.

use crate::bits::{codeword_bits, codeword_count, codewords_of, max_bits, BitBuffer};
use crate::capacity::{
    capacity_of, lookup, registered, Capacity, CapacityView, MAX_BLOCK_CODEWORDS,
};
use crate::ecc::{generate, rs_ecc};
use crate::mode::Mode;
use crate::numeric::{
    count_fits, count_fits_width, encode_number, encode_number_spec, encoded_len,
    find_invalid_digit, first_non_digit, lemma_encode_number_len, numeric_len,
};
use crate::version::Version;
use vstd::prelude::*;
use vstd::string::StringSliceAdditionalSpecFns;

verus! {

/// Why a payload could not be encoded.
#[derive(Clone, Copy, Debug, PartialEq, Eq, Structural)]
pub enum EncodeError {
    /// The capacity table has no entry for the version and mode.
    UnsupportedVersionOrMode,
    /// The payload holds something other than an ASCII digit: `position`
    /// is the index of the first character that is none.
    InvalidDigit { position: usize },
    /// The payload's length does not fit the character count indicator.
    CharacterCountOverflow,
    /// The encoded payload is longer than the version's data capacity.
    DataCapacityExceeded,
    /// No encoder exists for the mode.
    UnsupportedMode,
}

/// An outcome with the buffer replaced by the bits it holds.
pub open spec fn result_bits(outcome: Result<BitBuffer, EncodeError>) -> Result<
    Seq<bool>,
    EncodeError,
> {
    match outcome {
        Ok(buffer) => Ok(buffer@),
        Err(e) => Err(e),
    }
}

/// What padding gives: the bits followed by zero bits up to the data
/// capacity, or a refusal where the bits are already more than that.
pub open spec fn pad_spec(capacity: CapacityView, bits: Seq<bool>) -> Result<
    Seq<bool>,
    EncodeError,
> {
    if bits.len() > capacity.data_capacity_bits {
        Err(EncodeError::DataCapacityExceeded)
    } else {
        Ok(bits + Seq::new((capacity.data_capacity_bits - bits.len()) as nat, |i: int| false))
    }
}

/// The error-correction bits of padded data: the data grouped into
/// codewords, the codewords computed from them, each written as eight bits.
pub open spec fn ecc_bits(capacity: CapacityView, data: Seq<bool>) -> Seq<bool> {
    codeword_bits(rs_ecc(codewords_of(data), capacity.ecc_codeword_count))
}

/// The bit stream of a payload under given parameters, or the first
/// failure on the way.
pub open spec fn encode_spec(capacity: CapacityView, mode: Mode, payload: Seq<u8>) -> Result<
    Seq<bool>,
    EncodeError,
> {
    match mode {
        Mode::Numeric => match encode_number_spec(capacity, payload) {
            Err(e) => Err(e),
            Ok(data) => match pad_spec(capacity, data) {
                Err(e) => Err(e),
                Ok(padded) => Ok(padded + ecc_bits(capacity, padded)),
            },
        },
        _ => Err(EncodeError::UnsupportedMode),
    }
}

/// The bit stream of a payload for a version and mode, or the first
/// failure on the way.
pub open spec fn encode_for(version: Version, mode: Mode, payload: Seq<u8>) -> Result<
    Seq<bool>,
    EncodeError,
> {
    if registered(version, mode) {
        encode_spec(capacity_of(version, mode), mode, payload)
    } else {
        Err(EncodeError::UnsupportedVersionOrMode)
    }
}

/// Whether a payload can be encoded: the mode has an encoder, every byte
/// is a digit, their number fits the count indicator, and the encoding is
/// no longer than the data capacity.
pub open spec fn encodable(capacity: CapacityView, mode: Mode, payload: Seq<u8>) -> bool {
    &&& mode == Mode::Numeric
    &&& first_non_digit(payload) is None
    &&& count_fits(payload.len(), capacity.count_indicator_width)
    &&& numeric_len(capacity, payload.len()) <= capacity.data_capacity_bits
}

/// Encoding succeeds on exactly the payloads that are encodable.
pub proof fn lemma_encode_spec_ok(capacity: CapacityView, mode: Mode, payload: Seq<u8>)
    ensures
        encode_spec(capacity, mode, payload) is Ok <==> encodable(capacity, mode, payload),
{
    lemma_encode_number_len(capacity, payload);
}

/// Encoding is a function of its arguments: whatever two calls with the
/// same version, mode and payload give, they give the same.
pub proof fn lemma_encode_deterministic(
    version: Version,
    mode: Mode,
    payload: Seq<u8>,
    first: Result<BitBuffer, EncodeError>,
    second: Result<BitBuffer, EncodeError>,
)
    requires
        result_bits(first) == encode_for(version, mode, payload),
        result_bits(second) == encode_for(version, mode, payload),
    ensures
        result_bits(first) == result_bits(second),
{
}

/// Data that fills the data capacity exactly is padded with nothing, and
/// data one bit longer is refused.
pub proof fn lemma_pad_boundary(capacity: CapacityView, bits: Seq<bool>)
    ensures
        bits.len() == capacity.data_capacity_bits ==> pad_spec(capacity, bits) == Ok::<
            Seq<bool>,
            EncodeError,
        >(bits),
        bits.len() == capacity.data_capacity_bits + 1 ==> pad_spec(capacity, bits) == Err::<
            Seq<bool>,
            EncodeError,
        >(EncodeError::DataCapacityExceeded),
{
    if bits.len() == capacity.data_capacity_bits {
        assert(bits + Seq::new(0, |i: int| false) =~= bits);
    }
}

/// Extends the data with zero bits up to the data capacity. Data that
/// is already longer is refused and left as it is: nothing is ever cut off.
pub fn pad(capacity: &Capacity, data: &mut BitBuffer) -> (padded: Result<(), EncodeError>)
    requires
        capacity.data_capacity_bits <= max_bits(),
    ensures
        match padded {
            Ok(()) => pad_spec(capacity@, old(data)@) == Ok::<Seq<bool>, EncodeError>(
                final(data)@,
            ),
            Err(e) => pad_spec(capacity@, old(data)@) == Err::<Seq<bool>, EncodeError>(e)
                && final(data)@ == old(data)@,
        },
        old(data)@.len() == capacity.data_capacity_bits ==> padded is Ok && final(data)@ == old(
            data,
        )@,
{
    if data.len() > capacity.data_capacity_bits {
        return Err(EncodeError::DataCapacityExceeded);
    }
    data.zero_fill(capacity.data_capacity_bits);
    Ok(())
}

/// Computes the error-correction bits of padded data: the data grouped
/// into codewords, the error-correction codewords of those, each written
/// as eight bits.
pub fn calc_ecc(capacity: &Capacity, data: &BitBuffer) -> (ecc: BitBuffer)
    requires
        codeword_count(data@.len()) + capacity.ecc_codeword_count <= MAX_BLOCK_CODEWORDS,
    ensures
        ecc@ == ecc_bits(capacity@, data@),
        ecc@.len() == 8 * capacity.ecc_codeword_count,
{
    let codewords = data.to_codewords();
    let ecc_codewords = generate(capacity, codewords.as_slice());
    let mut ecc = BitBuffer::new();
    ecc.append_codewords(ecc_codewords.as_slice());
    ecc
}

/// Encodes a payload under given parameters: the data of the mode's
/// encoder, padded to the data capacity, followed by the error-correction
/// codewords. Only `Numeric` has an encoder. The first failure ends the
/// call.
pub fn encode_with_capacity(capacity: &Capacity, mode: &Mode, data: &str) -> (encoded: Result<
    BitBuffer,
    EncodeError,
>)
    requires
        capacity@.wf(),
    ensures
        result_bits(encoded) == encode_spec(capacity@, *mode, data.spec_bytes()),
        encoded is Ok <==> encodable(capacity@, *mode, data.spec_bytes()),
        encoded matches Ok(bits) ==> bits@.len() == capacity@.symbol_bits(),
{
    match mode {
        Mode::Numeric => {},
        _ => {
            return Err(EncodeError::UnsupportedMode);
        },
    }
    let bytes = data.as_bytes();
    proof {
        lemma_encode_spec_ok(capacity@, *mode, bytes@);
        lemma_encode_number_len(capacity@, bytes@);
    }
    let holdable = match encoded_len(capacity, bytes.len()) {
        Some(bits) => bits <= BitBuffer::max_len(),
        None => false,
    };
    if !holdable {
        // No buffer holds the encoding, so it is over the data capacity too:
        // the call fails, with the encoder's error where it has one.
        return Err(
            match find_invalid_digit(bytes) {
                Some(position) => EncodeError::InvalidDigit { position },
                None => if count_fits_width(bytes.len(), capacity.count_indicator_width) {
                    EncodeError::DataCapacityExceeded
                } else {
                    EncodeError::CharacterCountOverflow
                },
            },
        );
    }
    let mut d = match encode_number(capacity, data) {
        Ok(d) => d,
        Err(e) => {
            return Err(e);
        },
    };
    match pad(capacity, &mut d) {
        Ok(()) => {},
        Err(e) => {
            return Err(e);
        },
    }
    let ecc = calc_ecc(capacity, &d);
    d.append_buffer(&ecc);
    Ok(d)
}

/// Encodes a payload for a symbol version in a mode. The result holds the
/// mode indicator, the character count, the encoded data, zero padding up
/// to the version's data capacity, and the error-correction codewords, each
/// most significant bit first. The payload is read as the bytes of its
/// UTF-8 text.
pub fn encode(version: &Version, mode: &Mode, data: &str) -> (encoded: Result<
    BitBuffer,
    EncodeError,
>)
    ensures
        result_bits(encoded) == encode_for(*version, *mode, data.spec_bytes()),
        encoded is Ok <==> registered(*version, *mode) && encodable(
            capacity_of(*version, *mode),
            *mode,
            data.spec_bytes(),
        ),
        encoded matches Ok(bits) ==> bits@.len() == capacity_of(*version, *mode).symbol_bits(),
{
    let capacity = match lookup(version, mode) {
        Ok(capacity) => capacity,
        Err(e) => {
            return Err(e);
        },
    };
    encode_with_capacity(&capacity, mode, data)
}

} // verus!
