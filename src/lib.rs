//! A matrix-sum job server's core: the big-endian framing codec, the
//! job and result stores, the row-striped compute engine and the
//! per-connection request handler.

pub mod codec;
pub mod matrix;
pub mod store;
pub mod protocol;
