use vstd::prelude::*;

verus! {

#[verifier::external_type_specification]
#[verifier::external_body]
pub struct ExMinidumpError(minidump::Error);

/// Error type used by the md2core conversion pipeline.
#[derive(Debug, PartialEq, Eq)]
pub enum Md2CoreError {
    /// A requested byte range is outside of the backing buffer.
    RangeOutOfBounds {
        /// Requested start offset.
        offset: usize,
        /// Requested exclusive end offset.
        end: usize,
        /// Backing buffer length.
        len: usize,
    },
    /// Integer arithmetic overflowed while computing an address or size.
    IntegerOverflow(&'static str),
    /// A memory mapping has an invalid address interval.
    InvalidAddressRange {
        /// Inclusive start virtual address.
        start: u64,
        /// Exclusive end virtual address.
        end: u64,
    },
    /// A page or note alignment value is invalid.
    InvalidAlignment,
    /// A text stream was not valid UTF-8.
    InvalidUtf8 {
        /// Stream name.
        stream: &'static str,
    },
    /// A Linux maps line could not be parsed.
    InvalidMapsLine(String),
    /// A required field or stream has not been provided.
    MissingField(&'static str),
    /// A state transition was requested before its prerequisites were met.
    InvalidState(&'static str),
    /// The input minidump could not be read or a typed stream failed to parse.
    MinidumpRead(minidump::Error),
    /// The minidump was not produced on a supported Linux-like system.
    UnsupportedSystem {
        /// Operating system name.
        os: String,
        /// CPU architecture name.
        cpu: String,
    },
    /// A CPU context did not match the architecture reported by system info.
    ContextMismatch {
        /// Architecture from system info.
        expected: &'static str,
        /// Architecture inferred from the thread context.
        found: &'static str,
    },
    /// Serialization error from a byte reader.
    Serialize(String),
}

} // verus!
