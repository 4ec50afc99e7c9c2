//! Bit-granularity input/output over a byte-oriented transport.
//!
//! A `BitReader` pulls whole bytes from a byte source and hands out
//! individual bits or bit-fields; a `BitWriter` packs bits or bit-fields
//! and pushes whole bytes to a byte sink.  Within each transport byte the
//! least significant bit is the first bit of the stream, and multi-bit
//! fields travel low-order-bit first.

pub mod bits;
pub mod error;
pub mod mem;
pub mod reader;
pub mod transport;
pub mod writer;

pub use error::BitError;
pub use mem::MemSink;
pub use mem::MemSource;
pub use reader::BitReader;
pub use transport::ByteSink;
pub use transport::ByteSource;
pub use writer::BitWriter;
