//! Decoding of CRAM slices: block layout, the slice header, a bit reader over the
//! core data block, a record reader driven by a compression header, and the
//! mate-resolution pass that links the fragments of each template.
pub mod bit_reader;
pub mod block;
pub mod compression_header;
pub mod error;
pub mod flag;
pub mod header;
pub mod itf8;
pub mod mate;
pub mod reader;
pub mod record;
pub mod slice;
