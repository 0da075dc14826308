//! An earlier revision of the binary codec: the same wire format, with a smaller set of
//! primitives.

pub mod decoder;
pub mod encoder;
pub mod v1;
