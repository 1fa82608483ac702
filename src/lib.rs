//! Live framebuffer mirroring over a lossy datagram link.
//!
//! The sender splits the display into an 8x8 grid of tiles, detects changed
//! tiles with a content hash, compresses them with LZ4 and cuts each tile's
//! compressed bytes into fixed-size datagrams. The receiver reassembles the
//! fragments per tile and frame epoch, decompresses completed tiles into its
//! front buffer, and reports each completed frame.

pub mod block;
pub mod client;
pub mod codec;
pub mod consts;
pub mod hashing;
pub mod laws;
pub mod messages;
pub mod round_trip;
pub mod server;
