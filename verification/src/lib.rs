//! Paletted chunk storage: a bit-packed index array (`BitStorage`), an
//! adaptive palette mapping compact ids to 32-bit registry values, and the
//! wire-format codec for whole containers.

pub mod bit_storage;
pub mod codec;
pub mod container;
pub mod palette;
pub mod sound;
