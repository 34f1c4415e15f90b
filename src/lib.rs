//! Reader for the PKG asset container: a length-prefixed header, an entry
//! table of (path, offset, length) records, and a payload region served
//! through windowed readers.

pub mod error;
pub mod stream;
pub mod limited;
pub mod pkg;


