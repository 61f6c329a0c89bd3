use vstd::prelude::*;

verus! {

/// Every failure of the paged stream, the bit codec and the record codec.
///
/// No operation in this crate panics: each returns one of these through a
/// `Result`, and no value is ever silently substituted for corrupt or
/// out-of-range data.
#[derive(Clone, Copy, Debug, PartialEq, Eq, Structural)]
pub enum Error {
    /// The underlying byte source failed to deliver or accept bytes.
    IoFailure,
    /// A page's stored checksum does not match the checksum computed over its
    /// payload; carries the index of the offending page.
    ChecksumMismatch { page: usize },
    /// The stream or section holds fewer decodable bytes or rows than its
    /// descriptor declares.
    TruncatedSection,
    /// An encode-time value violates its field's declared bounds.
    ValueOutOfRange,
    /// A field descriptor is malformed: inverted bounds or a non-positive
    /// scale.
    InvalidFieldDescriptor,
    /// A row does not match the prototype: a declared field is missing or has
    /// a value of the wrong kind.
    SchemaMismatch,
}

} // verus!
