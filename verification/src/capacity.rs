//! The capacity table: what a version and a mode fix about a symbol's
//! bit stream.

use crate::bits::codeword_count;
use crate::encoder::EncodeError;
use crate::mode::Mode;
use crate::version::{
    data_bits, data_size, ecc_codewords, ecc_len, number_count_width, number_indicator,
    number_indicator_bits, number_of_char_indicators, Version,
};
use vstd::prelude::*;

verus! {

/// The most codewords, data and error correction together, that one
/// Reed–Solomon block over GF(256) holds.
pub const MAX_BLOCK_CODEWORDS: usize = 255;

/// The parameters of one version and mode.
#[derive(Clone, Debug)]
pub struct Capacity {
    /// The bits that announce the mode; empty where a version has one mode.
    pub mode_indicator_bits: Vec<bool>,
    /// The width in bits of the character count indicator.
    pub count_indicator_width: usize,
    /// The number of data bits, padding included.
    pub data_capacity_bits: usize,
    /// The number of error-correction codewords.
    pub ecc_codeword_count: usize,
}

/// A `Capacity` as plain mathematical values.
pub ghost struct CapacityView {
    pub mode_indicator_bits: Seq<bool>,
    pub count_indicator_width: nat,
    pub data_capacity_bits: nat,
    pub ecc_codeword_count: nat,
}

impl View for Capacity {
    type V = CapacityView;

    open spec fn view(&self) -> CapacityView {
        CapacityView {
            mode_indicator_bits: self.mode_indicator_bits@,
            count_indicator_width: self.count_indicator_width as nat,
            data_capacity_bits: self.data_capacity_bits as nat,
            ecc_codeword_count: self.ecc_codeword_count as nat,
        }
    }
}

impl CapacityView {
    /// The data codewords and the error-correction codewords fit in one
    /// Reed–Solomon block.
    pub open spec fn wf(self) -> bool {
        codeword_count(self.data_capacity_bits) + self.ecc_codeword_count
            <= MAX_BLOCK_CODEWORDS
    }

    /// The length of the full bit stream: data, then error correction.
    pub open spec fn symbol_bits(self) -> nat {
        self.data_capacity_bits + 8 * self.ecc_codeword_count
    }
}

impl Capacity {
    /// Whether the parameters describe a symbol that can be encoded.
    pub fn is_wf(&self) -> (ok: bool)
        ensures
            ok == self@.wf(),
    {
        let codewords = self.data_capacity_bits / 8 + if self.data_capacity_bits % 8 == 0 {
            0
        } else {
            1
        };
        codewords <= MAX_BLOCK_CODEWORDS && self.ecc_codeword_count <= MAX_BLOCK_CODEWORDS
            - codewords
    }
}

/// Whether the table has an entry for the pair.
pub open spec fn registered(version: Version, mode: Mode) -> bool {
    match (version, mode) {
        (Version::M1, Mode::Numeric) => true,
        _ => false,
    }
}

/// The entry of a registered pair.
pub open spec fn capacity_of(version: Version, mode: Mode) -> CapacityView {
    CapacityView {
        mode_indicator_bits: number_indicator_bits(version),
        count_indicator_width: number_count_width(version),
        data_capacity_bits: data_bits(version),
        ecc_codeword_count: ecc_codewords(version),
    }
}

/// Looks up the parameters of a version and mode. A pair without an entry
/// is refused with `UnsupportedVersionOrMode`.
pub fn lookup(version: &Version, mode: &Mode) -> (found: Result<Capacity, EncodeError>)
    ensures
        match found {
            Ok(capacity) => registered(*version, *mode) && capacity@ == capacity_of(
                *version,
                *mode,
            ) && capacity@.wf(),
            Err(e) => !registered(*version, *mode) && e
                == EncodeError::UnsupportedVersionOrMode,
        },
{
    match (version, mode) {
        (Version::M1, Mode::Numeric) => Ok(
            Capacity {
                mode_indicator_bits: number_indicator(version),
                count_indicator_width: number_of_char_indicators(version),
                data_capacity_bits: data_size(version),
                ecc_codeword_count: ecc_len(version),
            },
        ),
        _ => Err(EncodeError::UnsupportedVersionOrMode),
    }
}

} // verus!
