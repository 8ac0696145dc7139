//! A substring index over UTF-8 text, built on a suffix array, with a layer
//! that splits the text into documents at a delimiter character.
pub mod codec;
pub mod error;
pub mod index;
pub mod lex;
pub mod multi;
pub mod sort;

pub use codec::Endian;
pub use error::{Error, Result};
pub use index::{Index, IndexBuilder};
pub use multi::{DocPositions, MultiDocIndex, MultiDocIndexBuilder};
