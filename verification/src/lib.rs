//! A verified decoder and encoder for the NBT (Named Binary Tag) format:
//! a self-describing, recursively nested, tagged binary tree format.
//!
//! The decoder supports several on-wire dialects that differ in endianness,
//! in whether the root tag carries a name, and in whether lengths are
//! fixed-width or variable-width integers.  A checked read path and an
//! unchecked read path over the same buffer are both offered, with proved
//! agreement between the two, and decoding an encoded tree is proved to
//! return the original tree.

pub mod laws;
pub mod model;
pub mod decode;
pub mod encode;
pub mod reader;
pub mod spec_codec;
pub mod value;
pub mod words;

pub use model::DecodeError;
pub use model::Endian;
pub use model::NbtVersion;
pub use model::MAX_DEPTH;
pub use reader::NbtReader;
pub use value::NbtTypeConversion;
pub use value::NbtValue;
