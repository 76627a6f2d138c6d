//! Errors returned from parsing icy metadata.

use vstd::prelude::*;

verus! {

/// Error returned when a metadata block contains no usable values; carries
/// the text of the offending block.
#[derive(Debug, Clone, PartialEq, Eq)]
pub struct EmptyMetadataError(pub String);

impl EmptyMetadataError {
    /// A human-readable description of the error.
    pub fn message(&self) -> (r: String)
        ensures
            r@ == "No valid values found for metadata block "@ + self.0@,
    {
        let head = String::from_str("No valid values found for metadata block ");
        head.concat(self.0.as_str())
    }
}

/// Error returned when parsing metadata from a stream fails.
#[derive(Debug, Clone, PartialEq, Eq)]
pub enum MetadataParseError {
    /// Metadata block contained invalid UTF-8 data; carries the raw bytes.
    InvalidUtf8(Vec<u8>),
    /// Metadata block contained no valid values.
    Empty(EmptyMetadataError),
}

impl MetadataParseError {
    /// A human-readable description of the error.
    pub fn message(&self) -> (r: String)
        ensures
            self is Empty ==> r@ == "No valid values found for metadata block "@
                + self->Empty_0.0@,
            self is InvalidUtf8 ==> r@
                == "Failed to parse icy metadata block as a string. The stream may not be properly encoded."@,
    {
        match self {
            MetadataParseError::InvalidUtf8(_) => {
                String::from_str(
                    "Failed to parse icy metadata block as a string. The stream may not be properly encoded.",
                )
            },
            MetadataParseError::Empty(e) => e.message(),
        }
    }
}

} // verus!
