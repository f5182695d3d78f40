//! String columns for an in-memory column store: a raw packed encoding and a
//! dictionary encoding, both decodable in full or through a row mask.

pub mod mask;
pub mod text;
pub mod packer;
pub mod dict;
pub mod column;
