use vstd::prelude::*;

verus! {

/// Errors raised while reading a container or one of its entries.
#[derive(Debug, Clone, Copy, PartialEq, Eq, Structural)]
pub enum WPPkgFsError {
    /// The header string does not begin with `PKG`.
    InvalidFileHeader,
    /// Fewer bytes remain in the backing data than a read asks for,
    /// or an entry's payload lies past the end of the container.
    UnexpectedEof,
    /// A stored string is not valid UTF-8.
    InvalidUtf8,
    /// A seek targets a position outside a reader's window.
    OutOfRange,
    /// Bytes were requested from a reader whose window is exhausted.
    EndOfWindow,
}

impl WPPkgFsError {
    /// A short human-readable description of the error.
    pub fn message(&self) -> (r: String) {
        match self {
            WPPkgFsError::InvalidFileHeader => String::from_str("Not a valid WPPkgFs file header"),
            WPPkgFsError::UnexpectedEof => String::from_str("Unexpected end of data"),
            WPPkgFsError::InvalidUtf8 => String::from_str("Stored string is not valid UTF-8"),
            WPPkgFsError::OutOfRange => String::from_str("Position outside the reader's window"),
            WPPkgFsError::EndOfWindow => String::from_str("Reader window is exhausted"),
        }
    }
}

} // verus!
