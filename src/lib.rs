//! Little-endian binary decoding of fixed-width values from a byte buffer.
mod decode;
mod error;
pub mod le;

pub use decode::{Decode, Reader};
pub use error::Error;
