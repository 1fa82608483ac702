use fbmirror::client::{Client, Fragment};
use fbmirror::codec::{self, decode, encode, encode_band, framebuffer_indices, new_chunks, Chunk};
use fbmirror::consts::{
    BAND_SIZE, CHUNKS_PER_BAND, CHUNK_HEIGHT, CHUNK_SIZE, CHUNK_WIDTH, DISPLAY_SIZE,
    DISPLAY_WIDTH, FRAGMENT_PAYLOAD, HEADER_SIZE, NUM_CHUNKS, NUM_THREADS, PACKET_SIZE,
};
use fbmirror::messages::Header;
use fbmirror::server::Server;

/// A display whose pixels follow a simple pattern, so tiles differ.
fn patterned_display() -> Vec<u8> {
    let mut fb = vec![0u8; DISPLAY_SIZE];
    for (i, p) in fb.iter_mut().enumerate() {
        let row = i / DISPLAY_WIDTH;
        let col = i % DISPLAY_WIDTH;
        *p = ((row / 7 + col / 13) % 251) as u8;
    }
    fb
}

/// Bytes that compress poorly, from a linear congruential generator.
fn noise(seed: u32, n: usize) -> Vec<u8> {
    let mut x = seed;
    (0..n)
        .map(|_| {
            x = x.wrapping_mul(1_664_525).wrapping_add(1_013_904_223);
            (x >> 24) as u8
        })
        .collect()
}

/// The wire bytes of fragment `f` of `chunks`.
fn wire(f: &Fragment, chunks: &[Chunk]) -> Vec<u8> {
    let mut msg = f.header().to_bytes();
    let start = f.offset as usize;
    msg.extend_from_slice(&chunks[f.chunk].encoded[start..start + f.len]);
    msg
}

/// Writes the tile `(tx, ty)` of `fb` as the pixels `tile`.
fn write_tile(fb: &mut [u8], tx: usize, ty: usize, tile: &[u8]) {
    for r in 0..CHUNK_HEIGHT {
        let start = (ty * CHUNK_HEIGHT + r) * DISPLAY_WIDTH + tx * CHUNK_WIDTH;
        fb[start..start + CHUNK_WIDTH].copy_from_slice(&tile[r * CHUNK_WIDTH..(r + 1) * CHUNK_WIDTH]);
    }
}

#[test]
fn codec() {
    let framebuffer = patterned_display();
    let mut chunks = new_chunks();

    let changed = encode(&framebuffer, &mut chunks);
    assert_eq!(changed, [true; 64]);

    let mut decoded = vec![0u8; DISPLAY_SIZE];
    let mut decode_buffer = vec![0u8; CHUNK_SIZE];
    for chunk in &chunks {
        assert!(decode(&mut decoded, &mut decode_buffer, chunk.x, chunk.y, &chunk.encoded[..chunk.size]));
    }
    assert!(framebuffer == decoded);
}

#[test]
fn geometry_constants() {
    assert_eq!(CHUNK_WIDTH, 234);
    assert_eq!(CHUNK_HEIGHT, 310);
    assert_eq!(CHUNK_SIZE, 72_540);
    assert_eq!(DISPLAY_SIZE, 4_642_560);
    assert_eq!(NUM_CHUNKS, 64);
    assert_eq!(HEADER_SIZE, 18);
    assert_eq!(PACKET_SIZE, 1472);
    assert_eq!(FRAGMENT_PAYLOAD, 1454);
    assert_eq!(BAND_SIZE * NUM_THREADS, DISPLAY_SIZE);
}

#[test]
fn new_chunk_has_worst_case_buffer() {
    let c = Chunk::new(3, 5);
    assert_eq!((c.x, c.y, c.hash, c.size), (3, 5, 0, 0));
    assert_eq!(c.encoded.len(), 20 + CHUNK_SIZE * 110 / 100);
    assert_eq!(c.encoded.len(), 79_814);
}

#[test]
fn new_chunks_are_row_major() {
    let chunks = new_chunks();
    assert_eq!(chunks.len(), 64);
    assert_eq!((chunks[0].x, chunks[0].y), (0, 0));
    assert_eq!((chunks[9].x, chunks[9].y), (1, 1));
    assert_eq!((chunks[63].x, chunks[63].y), (7, 7));
}

#[test]
fn all_zero_frame() {
    let fb = vec![0u8; DISPLAY_SIZE];
    let mut chunks = new_chunks();
    assert_eq!(encode(&fb, &mut chunks), [true; 64]);
    let mut tile = vec![1u8; CHUNK_SIZE];
    for c in &chunks {
        let n = lz4_flex::block::decompress_into(&c.encoded[..c.size], &mut tile).unwrap();
        assert_eq!(n, CHUNK_SIZE);
        assert!(tile.iter().all(|&p| p == 0));
    }
    assert_eq!(encode(&fb, &mut chunks), [false; 64]);
}

#[test]
fn encoding_twice_changes_nothing() {
    let fb = patterned_display();
    let mut chunks = new_chunks();
    encode(&fb, &mut chunks);
    let sizes: Vec<usize> = chunks.iter().map(|c| c.size).collect();
    let hashes: Vec<u64> = chunks.iter().map(|c| c.hash).collect();
    assert_eq!(encode(&fb, &mut chunks), [false; 64]);
    assert_eq!(sizes, chunks.iter().map(|c| c.size).collect::<Vec<_>>());
    assert_eq!(hashes, chunks.iter().map(|c| c.hash).collect::<Vec<_>>());
}

#[test]
fn equal_tiles_hash_alike() {
    let mut fb = vec![0u8; DISPLAY_SIZE];
    let tile = noise(7, CHUNK_SIZE);
    write_tile(&mut fb, 1, 2, &tile);
    write_tile(&mut fb, 6, 5, &tile);
    let mut chunks = new_chunks();
    encode(&fb, &mut chunks);
    let a = &chunks[2 * 8 + 1];
    let b = &chunks[5 * 8 + 6];
    let blank = &chunks[0];
    assert_eq!(a.hash, b.hash);
    assert_ne!(a.hash, blank.hash);
    assert_ne!(a.hash, 0);
    assert_eq!(&a.encoded[..a.size], &b.encoded[..b.size]);
}

#[test]
fn compressed_tile_decompresses_to_its_pixels() {
    let fb = patterned_display();
    let mut c = Chunk::new(4, 6);
    let mut scratch = vec![0u8; CHUNK_SIZE];
    assert!(c.encode(&fb, 0, &mut scratch));
    assert!(c.size > 0 && c.size < CHUNK_SIZE);
    let expected = lz4_flex::block::compress(&scratch);
    assert_eq!(&c.encoded[..c.size], &expected[..]);
    let mut back = vec![0u8; CHUNK_SIZE];
    assert_eq!(lz4_flex::block::decompress_into(&c.encoded[..c.size], &mut back).unwrap(), CHUNK_SIZE);
    assert!(back == scratch);
    for r in 0..CHUNK_HEIGHT {
        let start = (6 * CHUNK_HEIGHT + r) * DISPLAY_WIDTH + 4 * CHUNK_WIDTH;
        assert_eq!(&back[r * CHUNK_WIDTH..(r + 1) * CHUNK_WIDTH], &fb[start..start + CHUNK_WIDTH]);
    }
}

#[test]
fn chunk_encode_within_a_band() {
    let fb = patterned_display();
    let mut whole = Chunk::new(2, 5);
    let mut banded = Chunk::new(2, 5);
    let mut scratch = vec![0u8; CHUNK_SIZE];
    assert!(whole.encode(&fb, 0, &mut scratch));
    assert!(banded.encode(&fb[BAND_SIZE..], BAND_SIZE, &mut scratch));
    assert_eq!(whole.hash, banded.hash);
    assert_eq!(&whole.encoded[..whole.size], &banded.encoded[..banded.size]);
}

#[test]
fn bands_match_whole_display() {
    let fb = patterned_display();
    let mut whole = new_chunks();
    let expected = encode(&fb, &mut whole);
    let mut banded = new_chunks();
    let mut updated = [false; 64];
    for (n, (chunks, flags)) in banded
        .chunks_mut(CHUNKS_PER_BAND)
        .zip(updated.chunks_mut(CHUNKS_PER_BAND))
        .enumerate()
    {
        encode_band(&fb[n * BAND_SIZE..(n + 1) * BAND_SIZE], n, chunks, flags);
    }
    assert_eq!(updated, expected);
    for (a, b) in whole.iter().zip(banded.iter()) {
        assert_eq!(a.hash, b.hash);
        assert_eq!(&a.encoded[..a.size], &b.encoded[..b.size]);
    }
}

#[test]
fn decode_rejects_garbage() {
    let mut fb = vec![9u8; DISPLAY_SIZE];
    let mut scratch = vec![0u8; CHUNK_SIZE];
    assert!(!decode(&mut fb, &mut scratch, 0, 0, &[0xff, 0xff, 0xff]));
    assert!(fb.iter().all(|&p| p == 9));
    let short = lz4_flex::block::compress(&[5u8; 100]);
    assert!(!decode(&mut fb, &mut scratch, 0, 0, &short));
    assert!(fb.iter().all(|&p| p == 9));
}

#[test]
fn decode_places_exactly_one_tile() {
    let mut fb = vec![9u8; DISPLAY_SIZE];
    let mut scratch = vec![0u8; CHUNK_SIZE];
    let block = lz4_flex::block::compress(&vec![3u8; CHUNK_SIZE]);
    assert!(decode(&mut fb, &mut scratch, 7, 7, &block));
    let r = framebuffer_indices(7, 7);
    for (i, &p) in fb.iter().enumerate() {
        let inside = (i / DISPLAY_WIDTH) >= 7 * CHUNK_HEIGHT && (i % DISPLAY_WIDTH) >= 7 * CHUNK_WIDTH;
        assert_eq!(p, if inside { 3 } else { 9 }, "pixel {i}");
    }
    assert_eq!(r.end, DISPLAY_SIZE);
}

#[test]
fn decode_into_scratch_only() {
    let mut fb = vec![9u8; DISPLAY_SIZE];
    let mut scratch = vec![0u8; CHUNK_SIZE];
    let block = lz4_flex::block::compress(&vec![4u8; CHUNK_SIZE]);
    assert!(codec::decode2(&mut fb, &mut scratch, 1, 1, &block));
    assert!(scratch.iter().all(|&p| p == 4));
    assert!(fb.iter().all(|&p| p == 9));
}

#[test]
fn framebuffer_indices_span_the_tile() {
    assert_eq!(framebuffer_indices(0, 0), 0..(CHUNK_HEIGHT - 1) * DISPLAY_WIDTH + CHUNK_WIDTH);
    let r = framebuffer_indices(1, 2);
    assert_eq!(r.start, 234 + 620 * 1872);
    assert_eq!(r.end, 234 + 929 * 1872 + 234);
}

#[test]
fn unchanged_tile_leaves_scratch_alone() {
    let fb = patterned_display();
    let mut c = Chunk::new(3, 3);
    let mut scratch = vec![0u8; CHUNK_SIZE];
    assert!(c.encode(&fb, 0, &mut scratch));
    let before = (c.hash, c.size);
    let mut scratch = vec![7u8; CHUNK_SIZE];
    assert!(!c.encode(&fb, 0, &mut scratch));
    assert!(scratch.iter().all(|&p| p == 7));
    assert_eq!(before, (c.hash, c.size));
}

#[test]
fn fresh_tile_always_changes() {
    let fb = vec![0u8; DISPLAY_SIZE];
    let mut c = Chunk::new(0, 0);
    let mut scratch = vec![0u8; CHUNK_SIZE];
    assert!(c.encode(&fb, 0, &mut scratch));
    assert!(c.size > 0);
}

#[test]
fn encode_from_the_tile_extent_alone() {
    let fb = patterned_display();
    let (x, y) = (3usize, 4usize);
    let start = x * CHUNK_WIDTH + y * CHUNK_HEIGHT * DISPLAY_WIDTH;
    let end = x * CHUNK_WIDTH + (y * CHUNK_HEIGHT + CHUNK_HEIGHT - 1) * DISPLAY_WIDTH + CHUNK_WIDTH;
    let mut whole = Chunk::new(x as u8, y as u8);
    let mut tight = Chunk::new(x as u8, y as u8);
    let mut scratch = vec![0u8; CHUNK_SIZE];
    assert!(whole.encode(&fb, 0, &mut scratch));
    let mut scratch2 = vec![0u8; CHUNK_SIZE];
    assert!(tight.encode(&fb[start..end], start, &mut scratch2));
    assert_eq!(whole.hash, tight.hash);
    assert_eq!(&whole.encoded[..whole.size], &tight.encoded[..tight.size]);
    assert!(scratch == scratch2);
}

#[test]
fn decode_into_a_longer_framebuffer() {
    let mut fb = vec![9u8; DISPLAY_SIZE + 100];
    let tile = vec![5u8; CHUNK_SIZE];
    Chunk::decode(&mut fb, &tile, 7, 7);
    assert!(fb[DISPLAY_SIZE..].iter().all(|&p| p == 9));
    assert_eq!(fb[DISPLAY_SIZE - 1], 5);
    assert_eq!(fb[0], 9);
}

#[test]
fn new_chunk_outside_the_grid() {
    let c = Chunk::new(9, 200);
    assert_eq!((c.x, c.y, c.hash, c.size), (9, 200, 0, 0));
    assert_eq!(c.encoded.len(), lz4_flex::block::get_maximum_output_size(CHUNK_SIZE));
}
