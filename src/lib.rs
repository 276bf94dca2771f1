//! DAG-JSON: a canonical JSON encoding of the IPLD data model, and blocks that
//! pair a content identifier with the bytes it names.
//!
//! Integers cover the signed 128-bit range and are written as bare decimal
//! literals; a decoded integer outside that range is an error. Floats are held
//! as their JSON number text, so NaN and the infinities cannot be encoded.
//! Byte strings are written as base64 strings and read back as strings.
pub mod ipld;
pub mod cid;
pub mod number;
pub mod codec;
pub mod block;
