//! The integer and byte-level core of the Kado geometry engine: checksums,
//! DEFLATE/zlib, PNG, ZIP, STL and GLB framing, Base64, the JSON parser of
//! the agent protocol, mesh welding and edge checks, the tool session rules,
//! output-format selection and the write-path sandbox.

pub mod bitstream;
pub mod byteorder;
pub mod checksum;
pub mod cli;
pub mod deflate;
pub mod export;
pub mod formats;
pub mod help;
pub mod image;
pub mod inflate;
pub mod json;
pub mod mesh;
pub mod protocol;
pub mod session;
pub mod text;
pub mod tools;
pub mod unfilter;
pub mod weld;
pub mod zip;
