//! Encoder core of a minimal LZ77-style compressor.
//!
//! The crate scans a byte sequence once, finds repeats of recently read bytes
//! in the data read so far and replaces qualifying repeats by an inline
//! length/distance token. There is no decoder and no container format.

pub mod encoder;
pub mod error;
pub mod matcher;
pub mod token;
pub mod width;

pub use encoder::{find_repeat_elements, Encoder};
pub use error::EncodeError;
pub use matcher::find_repeat_element;
pub use token::to_code;
pub use width::{next_pow2, short_be_bytes};
