//! The failures that the library reports.

use vstd::prelude::*;

verus! {

/// Why a stream operation failed.
#[derive(Clone, Copy, Debug, PartialEq, Eq, Structural)]
pub enum StreamError {
    /// Fewer bytes remain after the cursor than were asked for.
    UnexpectedEof,
    /// The bytes to write would end beyond what the stream can hold.
    OutOfRange,
    /// The medium itself failed.
    Fault,
}

/// Why a byte stream is not a well-formed archive.
#[derive(Clone, Copy, Debug, PartialEq, Eq, Structural)]
pub enum FormatError {
    /// The stream does not start with a container header.
    NotAnArchive,
    /// A delimiter byte is not `0x01`.
    BadDelimiter,
    /// One of the two fixed words of a child table has another value.
    BadMarker,
    /// A child name is not valid UTF-8.
    BadName,
    /// A header's class field is not valid UTF-8.
    BadClass,
    /// A header's payload size does not fit the 32-bit declared size.
    HeaderTooLarge,
    /// A container-class header carries metadata or a payload.
    ContainerWithPayload,
    /// A header's metadata does not end where its declared size says.
    HeaderSizeMismatch,
    /// A link's offset is that of no earlier real sibling.
    LinkTargetMissing,
    /// An entry is shorter than the header or child table found in it.
    EntryTooSmall,
    /// Containers are nested more deeply than `MAX_DEPTH`.
    TooDeep,
}

/// Why a request cannot be carried out on the tree as it stands.
#[derive(Clone, Copy, Debug, PartialEq, Eq, Structural)]
pub enum UsageError {
    /// The entry is a link or a container and has no bytes of its own.
    NotALeaf,
    /// A class name does not fit the 32-byte field.
    ClassTooLong,
    /// A class name holds a character outside ASCII.
    ClassNotAscii,
    /// A length or count does not fit the field that stores it.
    TooLarge,
    /// A link names a sibling that is missing, comes later, or is a link.
    BrokenLink,
    /// The container has no entry with that index.
    NoSuchEntry,
}

/// Every failure the library reports.
#[derive(Clone, Copy, Debug, PartialEq, Eq, Structural)]
pub enum PakError {
    Format(FormatError),
    Io(StreamError),
    /// The backing stream is gone.
    Liveness,
    Usage(UsageError),
}

/// The end-of-stream failure, as every reader reports it.
pub open spec fn eof() -> PakError {
    PakError::Io(StreamError::UnexpectedEof)
}

/// `e` is a medium fault, which only an unreliable stream may report.
pub open spec fn is_fault(reliable: bool, e: PakError) -> bool {
    !reliable && e == PakError::Io(StreamError::Fault)
}

} // verus!
