//! Reading and writing the bit-packed point records of a point-cloud
//! exchange container: a paged, checksum-verified byte stream; a
//! variable-bit-width field packer and unpacker; a typed field-descriptor
//! model; the streaming codec that turns a prototype and a sequence of
//! point rows into and out of that packed layout; and a forward-only
//! iterator over decoded rows. Every operation carries a contract, and the
//! codec's round trip, the packer's identity, and the stream's corruption
//! detection are proved.
//!
//! The textual metadata layer that supplies prototypes and section
//! descriptors, and the geometric value objects whose fields are doubles,
//! live outside this core.

pub mod bitpack;
pub mod byte_stream;
pub mod checksum;
pub mod comp_vector;
pub mod error;
pub mod iterator;
pub mod record;

pub use crate::bitpack::BitReader;
pub use crate::bitpack::BitWriter;
pub use crate::byte_stream::PagedReader;
pub use crate::byte_stream::PagedWriter;
pub use crate::comp_vector::Encoder;
pub use crate::comp_vector::SectionDescriptor;
pub use crate::error::Error;
pub use crate::iterator::PointCloudIterator;
pub use crate::iterator::decode_section;
pub use crate::record::Record;
pub use crate::record::RecordType;
pub use crate::record::RecordValue;
