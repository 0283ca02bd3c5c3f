//! Encoding modes.

use vstd::prelude::*;

verus! {

/// How a payload is turned into data bits. Only `Numeric` has an encoder;
/// the other tags are the places where further encoders attach.
#[derive(Clone, Copy, Debug, PartialEq, Eq, Structural)]
pub enum Mode {
    Numeric,
    Alphanumeric,
    Byte,
    Kanji,
}

} // verus!
