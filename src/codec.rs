//! Tiles of the display: change detection, compression and placement.

use std::ops::Range;

use vstd::arithmetic::div_mod::{lemma_fundamental_div_mod, lemma_fundamental_div_mod_converse};
use vstd::prelude::*;

use crate::block::{
    compress_into, decompress_into, lz4_block_of, lz4_unblock, max_output_size,
    max_output_size_spec,
};
use crate::consts::{
    BAND_SIZE, CHUNKS_PER_BAND, CHUNK_HEIGHT, CHUNK_SIZE, CHUNK_WIDTH, DISPLAY_SIZE, DISPLAY_WIDTH,
    NUM_CHUNKS, NUM_THREADS, TILES_ACROSS,
};
use crate::hashing::{fx_hash, fx_hash_of};

verus! {

/// Index in the display of pixel `k` (row-major within the tile) of tile `(tx, ty)`.
pub open spec fn tile_index(tx: int, ty: int, k: int) -> int {
    (ty * CHUNK_HEIGHT + k / CHUNK_WIDTH as int) * DISPLAY_WIDTH + tx * CHUNK_WIDTH + k
        % CHUNK_WIDTH as int
}

/// The pixels of tile `(tx, ty)`, row by row, read from `pixels`, which holds
/// the display from byte `offset` on.
pub open spec fn tile_pixels(pixels: Seq<u8>, offset: int, tx: int, ty: int) -> Seq<u8> {
    Seq::new(CHUNK_SIZE as nat, |k: int| pixels[tile_index(tx, ty, k) - offset])
}

/// Display index `i` lies in tile `(tx, ty)`.
pub open spec fn in_tile(tx: int, ty: int, i: int) -> bool {
    &&& ty * CHUNK_HEIGHT <= (i / DISPLAY_WIDTH as int) < ty * CHUNK_HEIGHT + CHUNK_HEIGHT
    &&& tx * CHUNK_WIDTH <= (i % DISPLAY_WIDTH as int) < tx * CHUNK_WIDTH + CHUNK_WIDTH
}

/// Position within tile `(tx, ty)` of display index `i`.
pub open spec fn tile_offset(tx: int, ty: int, i: int) -> int {
    ((i / DISPLAY_WIDTH as int) - ty * CHUNK_HEIGHT) * CHUNK_WIDTH
        + ((i % DISPLAY_WIDTH as int) - tx
        * CHUNK_WIDTH)
}

/// `display` with tile `(tx, ty)` replaced by `tile`.
pub open spec fn place_tile(display: Seq<u8>, tile: Seq<u8>, tx: int, ty: int) -> Seq<u8> {
    Seq::new(
        display.len(),
        |i: int|
            if in_tile(tx, ty, i) {
                tile[tile_offset(tx, ty, i)]
            } else {
                display[i]
            },
    )
}

/// `block` is an LZ4 block that decodes to exactly one tile of pixels.
pub open spec fn is_tile_block(block: Seq<u8>) -> bool {
    lz4_unblock(block) is Some && lz4_unblock(block)->0.len() == CHUNK_SIZE
}

/// Capacity of a tile's compressed-bytes buffer.
pub open spec fn encoded_capacity() -> nat {
    max_output_size_spec(CHUNK_SIZE as nat)
}

/// Display index of the first pixel of tile `(tx, ty)`.
pub open spec fn tile_start(tx: int, ty: int) -> int {
    tx * CHUNK_WIDTH + ty * CHUNK_HEIGHT * DISPLAY_WIDTH
}

/// One past the display index of the last pixel of tile `(tx, ty)`.
pub open spec fn tile_end(tx: int, ty: int) -> int {
    tx * CHUNK_WIDTH + (ty * CHUNK_HEIGHT + CHUNK_HEIGHT - 1) * DISPLAY_WIDTH + CHUNK_WIDTH
}

/// A tile's pixels lie within its rows of the display.
proof fn lemma_tile_extent(tx: int, ty: int)
    requires
        0 <= tx < TILES_ACROSS,
        0 <= ty < TILES_ACROSS,
    ensures
        ty * CHUNK_HEIGHT * DISPLAY_WIDTH <= tile_start(tx, ty),
        tile_end(tx, ty) <= (ty * CHUNK_HEIGHT + CHUNK_HEIGHT) * DISPLAY_WIDTH,
{
    assert(0 <= tx * 234 && tx * 234 + 234 <= 1872) by (nonlinear_arith)
        requires
            0 <= tx < 8,
    ;
    assert((ty * 310 + 310 - 1) * 1872 + 1872 == (ty * 310 + 310) * 1872) by (nonlinear_arith);
}

/// `row * DISPLAY_WIDTH + col` splits back into `row` and `col`.
proof fn lemma_display_pos(row: int, col: int)
    requires
        0 <= row,
        0 <= col < DISPLAY_WIDTH,
    ensures
        (row * DISPLAY_WIDTH + col) / DISPLAY_WIDTH as int == row,
        (row * DISPLAY_WIDTH + col) % DISPLAY_WIDTH as int == col,
{
    lemma_fundamental_div_mod_converse(
        row * DISPLAY_WIDTH + col,
        DISPLAY_WIDTH as int,
        row,
        col,
    );
}

/// `row * CHUNK_WIDTH + col` splits back into `row` and `col`.
pub(crate) proof fn lemma_tile_pos(row: int, col: int)
    requires
        0 <= row,
        0 <= col < CHUNK_WIDTH,
    ensures
        (row * CHUNK_WIDTH + col) / CHUNK_WIDTH as int == row,
        (row * CHUNK_WIDTH + col) % CHUNK_WIDTH as int == col,
{
    lemma_fundamental_div_mod_converse(row * CHUNK_WIDTH + col, CHUNK_WIDTH as int, row, col);
}

/// A tile in rows `4 * band .. 4 * band + 4` of the tile grid lies inside band `band`.
proof fn lemma_band_tile(band: int, ty: int)
    requires
        0 <= band < NUM_THREADS,
        band * (CHUNKS_PER_BAND / TILES_ACROSS) as int <= ty < band * (CHUNKS_PER_BAND
            / TILES_ACROSS) as int + (CHUNKS_PER_BAND / TILES_ACROSS) as int,
    ensures
        band * BAND_SIZE <= ty * CHUNK_HEIGHT * DISPLAY_WIDTH,
        (ty * CHUNK_HEIGHT + CHUNK_HEIGHT) * DISPLAY_WIDTH <= band * BAND_SIZE + BAND_SIZE,
{
    assert((CHUNKS_PER_BAND / TILES_ACROSS) as int == 4);
    if band == 0 {
        assert(0 <= ty < 4);
        assert(ty * CHUNK_HEIGHT * DISPLAY_WIDTH >= 0) by (nonlinear_arith)
            requires
                ty >= 0,
        ;
        assert((ty * 310 + 310) * 1872 <= 2321280) by (nonlinear_arith)
            requires
                ty < 4,
        ;
    } else {
        assert(band == 1);
        assert(4 <= ty < 8);
        assert(ty * 310 * 1872 >= 2321280) by (nonlinear_arith)
            requires
                ty >= 4,
        ;
        assert((ty * 310 + 310) * 1872 <= 4642560) by (nonlinear_arith)
            requires
                ty < 8,
        ;
    }
}

/// Copies `src[src_start .. src_start + len]` over `dst[dst_start .. dst_start + len]`.
pub(crate) fn copy_run(dst: &mut [u8], dst_start: usize, src: &[u8], src_start: usize, len: usize)
    requires
        dst_start + len <= old(dst)@.len(),
        src_start + len <= src@.len(),
    ensures
        final(dst)@.len() == old(dst)@.len(),
        forall|i: int|
            0 <= i < old(dst)@.len() ==> final(dst)@[i] == if dst_start <= i < dst_start + len {
                src@[src_start + i - dst_start]
            } else {
                old(dst)@[i]
            },
{
    let dst_len = dst.len();
    let src_len = src.len();
    let mut j: usize = 0;
    while j < len
        invariant
            dst_len == old(dst)@.len(),
            src_len == src@.len(),
            dst_start + len <= dst_len,
            src_start + len <= src_len,
            j <= len,
            dst@.len() == old(dst)@.len(),
            forall|i: int|
                0 <= i < old(dst)@.len() ==> dst@[i] == if dst_start <= i < dst_start + j {
                    src@[src_start + i - dst_start]
                } else {
                    old(dst)@[i]
                },
        decreases len - j,
    {
        dst[dst_start + j] = src[src_start + j];
        j = j + 1;
    }
}

/// Gathers tile `(x, y)` from `pixels` (the display from byte `offset` on)
/// into `buffer`.
fn gather_tile(pixels: &[u8], offset: usize, x: u8, y: u8, buffer: &mut [u8])
    requires
        x < TILES_ACROSS,
        y < TILES_ACROSS,
        offset <= tile_start(x as int, y as int),
        tile_end(x as int, y as int) <= offset + pixels@.len(),
        old(buffer)@.len() == CHUNK_SIZE,
    ensures
        final(buffer)@ == tile_pixels(pixels@, offset as int, x as int, y as int),
{
    let left: usize = x as usize * CHUNK_WIDTH;
    let top: usize = y as usize * CHUNK_HEIGHT;
    let mut row: usize = 0;
    while row < CHUNK_HEIGHT
        invariant
            x < TILES_ACROSS,
            y < TILES_ACROSS,
            left == x * CHUNK_WIDTH,
            top == y * CHUNK_HEIGHT,
            offset <= left + top * DISPLAY_WIDTH,
            left + (top + CHUNK_HEIGHT - 1) * DISPLAY_WIDTH + CHUNK_WIDTH <= offset + pixels@.len(),
            row <= CHUNK_HEIGHT,
            buffer@.len() == CHUNK_SIZE,
            forall|k: int|
                0 <= k < row * CHUNK_WIDTH ==> buffer@[k] == pixels@[tile_index(
                    x as int,
                    y as int,
                    k,
                ) - offset],
        decreases CHUNK_HEIGHT - row,
    {
        assert(top * DISPLAY_WIDTH <= (top + row) * DISPLAY_WIDTH <= (top + CHUNK_HEIGHT - 1)
            * DISPLAY_WIDTH) by (nonlinear_arith)
            requires
                row < CHUNK_HEIGHT,
        ;
        let start: usize = left + (top + row) * DISPLAY_WIDTH - offset;
        copy_run(buffer, row * CHUNK_WIDTH, pixels, start, CHUNK_WIDTH);
        assert forall|k: int| 0 <= k < (row + 1) * CHUNK_WIDTH implies buffer@[k] == pixels@[
            tile_index(x as int, y as int, k) - offset] by {
            if k >= row * CHUNK_WIDTH {
                lemma_tile_pos(row as int, k - row * CHUNK_WIDTH);
            }
        }
        row = row + 1;
    }
    assert(buffer@ =~= tile_pixels(pixels@, offset as int, x as int, y as int));
}

/// Pixel `i` of `display` once the first `rows` rows of tile `(tx, ty)` are
/// taken from `tile`.
spec fn scattered_rows(display: Seq<u8>, tile: Seq<u8>, tx: int, ty: int, rows: int, i: int) -> u8 {
    if in_tile(tx, ty, i) && (i / DISPLAY_WIDTH as int) < ty * CHUNK_HEIGHT + rows {
        tile[tile_offset(tx, ty, i)]
    } else {
        display[i]
    }
}

/// Writes the first `CHUNK_SIZE` bytes of `tile` over tile `(x, y)` of
/// `display`, which holds at least the whole display.
fn scatter_tile(display: &mut [u8], tile: &[u8], x: u8, y: u8)
    requires
        old(display)@.len() >= DISPLAY_SIZE,
        tile@.len() >= CHUNK_SIZE,
        x < TILES_ACROSS,
        y < TILES_ACROSS,
    ensures
        final(display)@ == place_tile(
            old(display)@,
            tile@.subrange(0, CHUNK_SIZE as int),
            x as int,
            y as int,
        ),
{
    let left: usize = x as usize * CHUNK_WIDTH;
    let top: usize = y as usize * CHUNK_HEIGHT;
    let ghost before = display@;
    let mut row: usize = 0;
    while row < CHUNK_HEIGHT
        invariant
            x < TILES_ACROSS,
            y < TILES_ACROSS,
            left == x * CHUNK_WIDTH,
            top == y * CHUNK_HEIGHT,
            row <= CHUNK_HEIGHT,
            tile@.len() >= CHUNK_SIZE,
            before == old(display)@,
            before.len() >= DISPLAY_SIZE,
            display@.len() == before.len(),
            forall|i: int|
                0 <= i < before.len() ==> display@[i] == scattered_rows(
                    before,
                    tile@,
                    x as int,
                    y as int,
                    row as int,
                    i,
                ),
        decreases CHUNK_HEIGHT - row,
    {
        let start: usize = (top + row) * DISPLAY_WIDTH + left;
        let ghost prev = display@;
        copy_run(display, start, tile, row * CHUNK_WIDTH, CHUNK_WIDTH);
        assert forall|i: int| 0 <= i < before.len() implies display@[i] == scattered_rows(
            before,
            tile@,
            x as int,
            y as int,
            row + 1,
            i,
        ) by {
            lemma_fundamental_div_mod(i, DISPLAY_WIDTH as int);
            if start <= i < start + CHUNK_WIDTH {
                lemma_display_pos((top + row) as int, i - (top + row) * DISPLAY_WIDTH);
                assert(display@[i] == tile@[row * CHUNK_WIDTH + i - start]);
                assert(tile_offset(x as int, y as int, i) == row * CHUNK_WIDTH + i - start);
            } else {
                assert(display@[i] == prev[i]);
                if in_tile(x as int, y as int, i) && (i / DISPLAY_WIDTH as int) == top + row {
                    assert(i == (top + row) * DISPLAY_WIDTH + (i % DISPLAY_WIDTH as int));
                    assert(false);
                }
            }
        }
        row = row + 1;
    }
    assert(display@ =~= place_tile(
        old(display)@,
        tile@.subrange(0, CHUNK_SIZE as int),
        x as int,
        y as int,
    ));
}

/// One tile of the display as the sender tracks it.
#[derive(Clone)]
pub struct Chunk {
    /// Tile column.
    pub x: u8,
    /// Tile row.
    pub y: u8,
    /// Hash of the pixels last compressed; 0 before the first encoding.
    pub hash: u64,
    /// Length of the valid compressed bytes at the start of `encoded`.
    pub size: usize,
    /// Compressed bytes of the tile, sized for the worst case.
    pub encoded: Vec<u8>,
}

impl Chunk {
    pub open spec fn wf(&self) -> bool {
        &&& self.x < TILES_ACROSS
        &&& self.y < TILES_ACROSS
        &&& self.encoded@.len() == encoded_capacity()
        &&& self.size <= self.encoded@.len()
    }

    /// The compressed bytes of the tile.
    pub open spec fn payload(&self) -> Seq<u8> {
        self.encoded@.subrange(0, self.size as int)
    }

    /// Encoding the tile pixels `pixels` into this tile reports a change: it
    /// has never been encoded, or their hash differs from the stored one.
    pub open spec fn changes(&self, pixels: Seq<u8>) -> bool {
        self.size == 0 || fx_hash_of(pixels) != self.hash
    }

    /// `self` is what `old` becomes after encoding the tile pixels `pixels`:
    /// unchanged when they bring no change, else holding their hash and block.
    pub open spec fn encoded_from(&self, old: Chunk, pixels: Seq<u8>) -> bool {
        if !old.changes(pixels) {
            *self == old
        } else {
            &&& self.x == old.x
            &&& self.y == old.y
            &&& self.hash == fx_hash_of(pixels)
            &&& self.encoded@.len() == old.encoded@.len()
            &&& self.size == lz4_block_of(pixels).len()
            &&& self.size > 0
            &&& self.payload() == lz4_block_of(pixels)
            &&& lz4_unblock(self.payload()) == Some(pixels)
        }
    }

    /// A tile that has not been encoded yet, with a compressed-bytes buffer
    /// of the worst-case size; it is well formed where `(x, y)` names a tile.
    pub fn new(x: u8, y: u8) -> (r: Self)
        ensures
            x < TILES_ACROSS && y < TILES_ACROSS ==> r.wf(),
            r.encoded@.len() == encoded_capacity(),
            r.x == x,
            r.y == y,
            r.hash == 0,
            r.size == 0,
    {
        Chunk { x, y, hash: 0, size: 0, encoded: vec![0u8; max_output_size(CHUNK_SIZE)] }
    }

    /// Reads this tile from `framebuffer`, which holds the display from byte
    /// `offset` on. Where it was never encoded or its hash differs from the
    /// stored one, copies its pixels into the scratch `buffer`, compresses
    /// them and returns true; else returns false and changes nothing.
    pub fn encode(&mut self, framebuffer: &[u8], offset: usize, buffer: &mut [u8]) -> (changed:
        bool)
        requires
            old(self).wf(),
            offset <= tile_start(old(self).x as int, old(self).y as int),
            tile_end(old(self).x as int, old(self).y as int) <= offset + framebuffer@.len(),
            old(buffer)@.len() == CHUNK_SIZE,
        ensures
            final(self).wf(),
            ({
                let pixels = tile_pixels(
                    framebuffer@,
                    offset as int,
                    old(self).x as int,
                    old(self).y as int,
                );
                &&& changed == old(self).changes(pixels)
                &&& final(self).encoded_from(*old(self), pixels)
                &&& changed ==> final(buffer)@ == pixels
                &&& !changed ==> final(buffer)@ == old(buffer)@
            }),
    {
        let mut gathered: Vec<u8> = vec![0u8; CHUNK_SIZE];
        self.encode_gathered(framebuffer, offset, gathered.as_mut_slice(), buffer)
    }

    /// `encode`, gathering the tile into `gathered` first.
    fn encode_gathered(
        &mut self,
        framebuffer: &[u8],
        offset: usize,
        gathered: &mut [u8],
        buffer: &mut [u8],
    ) -> (changed: bool)
        requires
            old(self).wf(),
            offset <= tile_start(old(self).x as int, old(self).y as int),
            tile_end(old(self).x as int, old(self).y as int) <= offset + framebuffer@.len(),
            old(gathered)@.len() == CHUNK_SIZE,
            old(buffer)@.len() == CHUNK_SIZE,
        ensures
            final(self).wf(),
            final(gathered)@.len() == CHUNK_SIZE,
            ({
                let pixels = tile_pixels(
                    framebuffer@,
                    offset as int,
                    old(self).x as int,
                    old(self).y as int,
                );
                &&& changed == old(self).changes(pixels)
                &&& final(self).encoded_from(*old(self), pixels)
                &&& changed ==> final(buffer)@ == pixels
                &&& !changed ==> final(buffer)@ == old(buffer)@
            }),
    {
        gather_tile(framebuffer, offset, self.x, self.y, gathered);
        let hash = fx_hash(gathered);
        if self.size != 0 && self.hash == hash {
            return false;
        }
        copy_run(buffer, 0, gathered, 0, CHUNK_SIZE);
        assert(buffer@ =~= gathered@);
        self.hash = hash;
        let written = compress_into(buffer, self.encoded.as_mut_slice());
        self.size = written.unwrap();
        true
    }

    /// Writes the first `CHUNK_SIZE` bytes of `buffer`, a decoded tile, over
    /// tile `(x, y)` of `framebuffer`, which holds at least the whole display.
    pub fn decode(framebuffer: &mut [u8], buffer: &[u8], x: u8, y: u8)
        requires
            old(framebuffer)@.len() >= DISPLAY_SIZE,
            buffer@.len() >= CHUNK_SIZE,
            x < TILES_ACROSS,
            y < TILES_ACROSS,
        ensures
            final(framebuffer)@ == place_tile(
                old(framebuffer)@,
                buffer@.subrange(0, CHUNK_SIZE as int),
                x as int,
                y as int,
            ),
    {
        scatter_tile(framebuffer, buffer, x, y);
    }
}

/// `chunks` are the display's tiles in row-major order, each well formed.
pub open spec fn display_layout(chunks: Seq<Chunk>) -> bool {
    &&& chunks.len() == NUM_CHUNKS
    &&& forall|i: int|
        0 <= i < NUM_CHUNKS ==> {
            &&& (#[trigger] chunks[i]).wf()
            &&& chunks[i].x == i % TILES_ACROSS as int
            &&& chunks[i].y == i / TILES_ACROSS as int
        }
}

/// `chunks` are the tiles of band `band` in row-major order, each well formed.
pub open spec fn band_layout(chunks: Seq<Chunk>, band: int) -> bool {
    &&& chunks.len() == CHUNKS_PER_BAND
    &&& forall|j: int|
        0 <= j < CHUNKS_PER_BAND ==> {
            &&& (#[trigger] chunks[j]).wf()
            &&& chunks[j].x == j % TILES_ACROSS as int
            &&& chunks[j].y == band * (CHUNKS_PER_BAND / TILES_ACROSS) as int + j
                / TILES_ACROSS as int
        }
}

/// All tiles of the display, none encoded yet.
pub fn new_chunks() -> (chunks: Vec<Chunk>)
    ensures
        display_layout(chunks@),
        forall|i: int| 0 <= i < NUM_CHUNKS ==> (#[trigger] chunks@[i]).hash == 0
            && chunks@[i].size == 0,
{
    let mut chunks: Vec<Chunk> = Vec::new();
    let mut i: usize = 0;
    while i < NUM_CHUNKS
        invariant
            i <= NUM_CHUNKS,
            chunks@.len() == i,
            forall|j: int|
                0 <= j < i ==> {
                    &&& (#[trigger] chunks@[j]).wf()
                    &&& chunks@[j].x == j % TILES_ACROSS as int
                    &&& chunks@[j].y == j / TILES_ACROSS as int
                    &&& chunks@[j].hash == 0
                    &&& chunks@[j].size == 0
                },
        decreases NUM_CHUNKS - i,
    {
        chunks.push(Chunk::new((i % TILES_ACROSS) as u8, (i / TILES_ACROSS) as u8));
        i = i + 1;
    }
    chunks
}

/// Encodes every tile of `framebuffer`, the whole display, and reports for
/// each tile, by index, whether it changed.
pub fn encode(framebuffer: &[u8], chunks: &mut [Chunk]) -> (updated: [bool; NUM_CHUNKS])
    requires
        framebuffer@.len() == DISPLAY_SIZE,
        display_layout(old(chunks)@),
    ensures
        display_layout(final(chunks)@),
        forall|i: int|
            0 <= i < NUM_CHUNKS ==> {
                let pixels = tile_pixels(
                    framebuffer@,
                    0,
                    i % TILES_ACROSS as int,
                    i / TILES_ACROSS as int,
                );
                &&& updated@[i] == old(chunks)@[i].changes(pixels)
                &&& (#[trigger] final(chunks)@[i]).encoded_from(old(chunks)@[i], pixels)
            },
{
    let mut updated = [false; NUM_CHUNKS];
    let mut gathered: Vec<u8> = vec![0u8; CHUNK_SIZE];
    let mut buffer: Vec<u8> = vec![0u8; CHUNK_SIZE];
    let mut i: usize = 0;
    while i < NUM_CHUNKS
        invariant
            framebuffer@.len() == DISPLAY_SIZE,
            i <= NUM_CHUNKS,
            gathered@.len() == CHUNK_SIZE,
            buffer@.len() == CHUNK_SIZE,
            display_layout(chunks@),
            display_layout(old(chunks)@),
            forall|j: int| i <= j < NUM_CHUNKS ==> (#[trigger] chunks@[j]) == old(chunks)@[j],
            forall|j: int|
                0 <= j < i ==> updated@[j] == old(chunks)@[j].changes(
                    tile_pixels(framebuffer@, 0, j % TILES_ACROSS as int, j / TILES_ACROSS as int),
                ),
            forall|j: int|
                0 <= j < i ==> (#[trigger] chunks@[j]).encoded_from(
                    old(chunks)@[j],
                    tile_pixels(framebuffer@, 0, j % TILES_ACROSS as int, j / TILES_ACROSS as int),
                ),
        decreases NUM_CHUNKS - i,
    {
        proof {
            lemma_tile_extent(chunks@[i as int].x as int, chunks@[i as int].y as int);
            assert(((chunks@[i as int].y * CHUNK_HEIGHT + CHUNK_HEIGHT) * DISPLAY_WIDTH) as int
                <= DISPLAY_SIZE) by (nonlinear_arith)
                requires
                    chunks@[i as int].y < 8,
            ;
        }
        let ghost prev_chunks = chunks@;
        let ghost prev_updated = updated@;
        let changed = chunks[i].encode_gathered(
            framebuffer,
            0,
            gathered.as_mut_slice(),
            buffer.as_mut_slice(),
        );
        updated[i] = changed;
        assert forall|j: int| 0 <= j < i implies (#[trigger] chunks@[j]).encoded_from(
            old(chunks)@[j],
            tile_pixels(framebuffer@, 0, j % TILES_ACROSS as int, j / TILES_ACROSS as int),
        ) by {
            assert(chunks@[j] == prev_chunks[j]);
        }
        i = i + 1;
    }
    updated
}

/// Encodes the tiles of one worker's band: `band` holds display bytes
/// `band_index * BAND_SIZE ..` and `chunks` are that band's tiles. Sets
/// `updated[j]` to whether tile `j` of the band changed.
pub fn encode_band(band: &[u8], band_index: usize, chunks: &mut [Chunk], updated: &mut [bool])
    requires
        band_index < NUM_THREADS,
        band@.len() == BAND_SIZE,
        band_layout(old(chunks)@, band_index as int),
        old(updated)@.len() == CHUNKS_PER_BAND,
    ensures
        band_layout(final(chunks)@, band_index as int),
        final(updated)@.len() == CHUNKS_PER_BAND,
        forall|j: int|
            0 <= j < CHUNKS_PER_BAND ==> {
                let pixels = tile_pixels(
                    band@,
                    band_index * BAND_SIZE,
                    old(chunks)@[j].x as int,
                    old(chunks)@[j].y as int,
                );
                &&& final(updated)@[j] == old(chunks)@[j].changes(pixels)
                &&& (#[trigger] final(chunks)@[j]).encoded_from(old(chunks)@[j], pixels)
            },
{
    assert(band_index * BAND_SIZE <= BAND_SIZE) by (nonlinear_arith)
        requires
            band_index < NUM_THREADS,
    ;
    let offset: usize = band_index * BAND_SIZE;
    let mut gathered: Vec<u8> = vec![0u8; CHUNK_SIZE];
    let mut buffer: Vec<u8> = vec![0u8; CHUNK_SIZE];
    let mut j: usize = 0;
    while j < CHUNKS_PER_BAND
        invariant
            band_index < NUM_THREADS,
            offset == band_index * BAND_SIZE,
            band@.len() == BAND_SIZE,
            j <= CHUNKS_PER_BAND,
            gathered@.len() == CHUNK_SIZE,
            buffer@.len() == CHUNK_SIZE,
            updated@.len() == CHUNKS_PER_BAND,
            band_layout(chunks@, band_index as int),
            band_layout(old(chunks)@, band_index as int),
            forall|k: int| j <= k < CHUNKS_PER_BAND ==> (#[trigger] chunks@[k]) == old(chunks)@[k],
            forall|k: int|
                0 <= k < j ==> updated@[k] == old(chunks)@[k].changes(
                    tile_pixels(
                        band@,
                        band_index * BAND_SIZE,
                        old(chunks)@[k].x as int,
                        old(chunks)@[k].y as int,
                    ),
                ),
            forall|k: int|
                0 <= k < j ==> (#[trigger] chunks@[k]).encoded_from(
                    old(chunks)@[k],
                    tile_pixels(
                        band@,
                        band_index * BAND_SIZE,
                        old(chunks)@[k].x as int,
                        old(chunks)@[k].y as int,
                    ),
                ),
        decreases CHUNKS_PER_BAND - j,
    {
        let ghost prev_chunks = chunks@;
        proof {
            lemma_band_tile(band_index as int, chunks@[j as int].y as int);
            lemma_tile_extent(chunks@[j as int].x as int, chunks@[j as int].y as int);
        }
        let changed = chunks[j].encode_gathered(
            band,
            offset,
            gathered.as_mut_slice(),
            buffer.as_mut_slice(),
        );
        updated[j] = changed;
        assert forall|k: int| 0 <= k < j implies (#[trigger] chunks@[k]).encoded_from(
            old(chunks)@[k],
            tile_pixels(
                band@,
                band_index * BAND_SIZE,
                old(chunks)@[k].x as int,
                old(chunks)@[k].y as int,
            ),
        ) by {
            assert(chunks@[k] == prev_chunks[k]);
        }
        j = j + 1;
    }
}

/// Decompresses `data`, the compressed bytes of tile `(x, y)`, into `decoded`
/// and writes the tile over `framebuffer`. Returns false, leaving
/// `framebuffer` as it was, where `data` does not decode to one tile.
pub fn decode(framebuffer: &mut [u8], decoded: &mut [u8], x: u8, y: u8, data: &[u8]) -> (ok: bool)
    requires
        old(framebuffer)@.len() >= DISPLAY_SIZE,
        old(decoded)@.len() >= CHUNK_SIZE,
        data@.len() <= encoded_capacity(),
        x < TILES_ACROSS,
        y < TILES_ACROSS,
    ensures
        final(decoded)@.len() == old(decoded)@.len(),
        ok == is_tile_block(data@),
        ok ==> final(decoded)@.subrange(0, CHUNK_SIZE as int) == lz4_unblock(data@)->0,
        ok ==> final(framebuffer)@ == place_tile(
            old(framebuffer)@,
            lz4_unblock(data@)->0,
            x as int,
            y as int,
        ),
        !ok ==> final(framebuffer)@ == old(framebuffer)@,
{
    if !decode2(framebuffer, decoded, x, y, data) {
        return false;
    }
    Chunk::decode(framebuffer, decoded, x, y);
    true
}

/// Decompresses `data` into `decoded`; returns whether it decoded to exactly
/// one tile, which then stands in the first `CHUNK_SIZE` bytes of `decoded`.
/// `framebuffer`, `x` and `y` are not used.
pub fn decode2(framebuffer: &mut [u8], decoded: &mut [u8], x: u8, y: u8, data: &[u8]) -> (ok: bool)
    requires
        old(decoded)@.len() >= CHUNK_SIZE,
        data@.len() <= encoded_capacity(),
    ensures
        final(framebuffer)@ == old(framebuffer)@,
        final(decoded)@.len() == old(decoded)@.len(),
        ok == is_tile_block(data@),
        ok ==> final(decoded)@.subrange(0, CHUNK_SIZE as int) == lz4_unblock(data@)->0,
{
    match decompress_into(data, decoded) {
        Some(n) => n == CHUNK_SIZE,
        None => false,
    }
}

/// The smallest range of display indices that holds every pixel of tile `(x, y)`.
/// It ends just past the tile's last pixel, so it stays inside the display
/// for the bottom row of tiles too.
pub fn framebuffer_indices(x: u8, y: u8) -> (r: Range<usize>)
    requires
        x < TILES_ACROSS,
        y < TILES_ACROSS,
    ensures
        r.start == tile_index(x as int, y as int, 0),
        r.end == tile_index(x as int, y as int, CHUNK_SIZE - 1) + 1,
        r.end <= DISPLAY_SIZE,
{
    let left: usize = x as usize * CHUNK_WIDTH;
    let top: usize = y as usize * CHUNK_HEIGHT;
    let start: usize = left + top * DISPLAY_WIDTH;
    let end: usize = left + (top + CHUNK_HEIGHT - 1) * DISPLAY_WIDTH + CHUNK_WIDTH;
    start..end
}

} // verus!
