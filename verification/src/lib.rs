//! Bit streams for Micro QR symbols: mode-tagged data encoding, padding to
//! the symbol's capacity, and Reed–Solomon error correction.

pub mod bits;
pub mod capacity;
pub mod ecc;
pub mod encoder;
pub mod mode;
pub mod numeric;
pub mod version;

pub use crate::bits::BitBuffer;
pub use crate::capacity::Capacity;
pub use crate::encoder::{encode, EncodeError};
pub use crate::mode::Mode;
pub use crate::version::Version;
