//! A verified codec for the line-oriented, RFC822-inspired text format used by
//! Debian control files.
//!
//! The format stores records as `Key: value` lines; a value may continue on
//! physically indented lines, a continuation line of exactly `" ."` encodes an
//! intentionally blank logical line, and a blank line ends a record.  The
//! format is not self-describing: the caller decides per field whether the raw
//! value is a scalar (to be unfolded) or a comma-separated list.

pub mod de;
pub mod laws;
pub mod ser;
pub mod text;
pub mod wrap;

pub use de::Deserializer;
pub use ser::Serializer;
