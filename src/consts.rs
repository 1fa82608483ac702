use vstd::prelude::*;

verus! {

/// Number of workers that split the display into row bands.
pub const NUM_THREADS: usize = 2;

pub const DISPLAY_WIDTH: usize = 1872;
pub const DISPLAY_HEIGHT: usize = 2480;
pub const DISPLAY_SIZE: usize = DISPLAY_WIDTH * DISPLAY_HEIGHT;

/// Tiles per display row and per display column.
pub const TILES_ACROSS: usize = 8;

/// `DISPLAY_WIDTH / TILES_ACROSS`.
pub const CHUNK_WIDTH: usize = 234;
/// `DISPLAY_HEIGHT / TILES_ACROSS`.
pub const CHUNK_HEIGHT: usize = 310;
pub const CHUNK_SIZE: usize = CHUNK_WIDTH * CHUNK_HEIGHT;
pub const NUM_CHUNKS: usize = TILES_ACROSS * TILES_ACROSS;

/// Largest datagram payload sent on the wire.
pub const PACKET_SIZE: usize = 1472;

/// Size of the fixed header at the start of every datagram.
pub const HEADER_SIZE: usize = 18;

/// Compressed bytes carried by one full fragment.
pub const FRAGMENT_PAYLOAD: usize = PACKET_SIZE - HEADER_SIZE;

/// Frames per second at most.
pub const MAX_FPS: u64 = 60;

/// Time between frame deadlines, in nanoseconds.
pub const FRAME_NANOS: u64 = 1_000_000_000 / MAX_FPS;

/// Bytes of the display read and encoded by one worker.
pub const BAND_SIZE: usize = DISPLAY_SIZE / NUM_THREADS;

/// Tiles owned by one worker.
pub const CHUNKS_PER_BAND: usize = NUM_CHUNKS / NUM_THREADS;

} // verus!
