//! Symbol versions and the parameters that each of them fixes.

use vstd::prelude::*;

verus! {

/// The symbol size classes this library can encode for.
#[derive(Clone, Copy, Debug, PartialEq, Eq, Structural)]
pub enum Version {
    M1,
}

/// The mode indicator that precedes numeric data in a symbol of `version`.
pub open spec fn number_indicator_bits(version: Version) -> Seq<bool> {
    match version {
        Version::M1 => Seq::empty(),
    }
}

/// The width in bits of the character count indicator of numeric data.
pub open spec fn number_count_width(version: Version) -> nat {
    match version {
        Version::M1 => 3,
    }
}

/// The number of error-correction codewords of a symbol.
pub open spec fn ecc_codewords(version: Version) -> nat {
    match version {
        Version::M1 => 2,
    }
}

/// The number of data bits of a symbol.
pub open spec fn data_bits(version: Version) -> nat {
    match version {
        Version::M1 => 20,
    }
}

impl Version {
    /// The key under which the version is known.
    pub fn key(&self) -> (key: &'static str)
        ensures
            key@ == match *self {
                Version::M1 => "m1"@,
            },
    {
        match self {
            Version::M1 => "m1",
        }
    }

    /// The number of modules along one side of the symbol.
    pub fn module(&self) -> (side: u32)
        ensures
            side == match *self {
                Version::M1 => 11u32,
            },
    {
        match self {
            Version::M1 => 11,
        }
    }
}

/// The mode indicator that precedes numeric data: empty where the version
/// has no other mode.
pub fn number_indicator(version: &Version) -> (bits: Vec<bool>)
    ensures
        bits@ == number_indicator_bits(*version),
{
    match version {
        Version::M1 => Vec::new(),
    }
}

/// The width in bits of the character count indicator of numeric data.
pub fn number_of_char_indicators(version: &Version) -> (width: usize)
    ensures
        width == number_count_width(*version),
{
    match version {
        Version::M1 => 3,
    }
}

/// The number of error-correction codewords.
pub fn ecc_len(version: &Version) -> (count: usize)
    ensures
        count == ecc_codewords(*version),
{
    match version {
        Version::M1 => 2,
    }
}

/// The number of data bits, padding included.
pub fn data_size(version: &Version) -> (bits: usize)
    ensures
        bits == data_bits(*version),
{
    match version {
        Version::M1 => 20,
    }
}

} // verus!
