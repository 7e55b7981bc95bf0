//! Words-per-sentence steganography: a hidden message is carried by the
//! number of words in each sentence of a cover text.

pub mod codes;
pub mod comparator;
pub mod decoder;
pub mod encoder;
pub mod error;
pub mod round_trip;
pub mod text;

pub use comparator::compare;
pub use decoder::decode;
pub use encoder::encode;
pub use error::{DecodingError, EncodingError};
