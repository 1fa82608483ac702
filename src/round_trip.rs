//! The round trip: every tile of a display, compressed, cut into fragments
//! and delivered to a receiver in any order, rebuilds the display exactly.

use vstd::arithmetic::div_mod::{lemma_fundamental_div_mod, lemma_fundamental_div_mod_converse};
use vstd::prelude::*;
use vstd::set_lib::{lemma_int_range, lemma_len_subset, lemma_subset_equality, set_int_range};

use crate::block::lz4_unblock;
use crate::client::{
    count_changed, fragment_count, fragment_len, frame_fragments, tile_fragments, Fragment,
};
use crate::codec::{
    display_layout, in_tile, is_tile_block, lemma_tile_pos, place_tile, tile_index, tile_offset,
    Chunk,
};
use crate::consts::{
    CHUNK_HEIGHT, CHUNK_SIZE, CHUNK_WIDTH, DISPLAY_HEIGHT, DISPLAY_SIZE, DISPLAY_WIDTH,
    FRAGMENT_PAYLOAD, NUM_CHUNKS, TILES_ACROSS,
};
use crate::laws::{display_tile, run, step, Datagram, Trace};
use crate::server::{arbitrate, placed, receive, slot_index, state_wf, ReceiverState};

verus! {

/// Index, in row-major tile order, of the tile that holds display index `i`.
pub open spec fn tile_of(i: int) -> int {
    ((i / DISPLAY_WIDTH as int) / CHUNK_HEIGHT as int) * TILES_ACROSS + (i % DISPLAY_WIDTH as int)
        / CHUNK_WIDTH as int
}

/// Display index `i` lies in tile `tile_of(i)` and in no other, at the
/// position within it from which `tile_index` leads back to `i`.
proof fn lemma_pixel_tile(i: int)
    requires
        0 <= i < DISPLAY_SIZE,
    ensures
        0 <= tile_of(i) < TILES_ACROSS * TILES_ACROSS,
        in_tile(tile_of(i) % TILES_ACROSS as int, tile_of(i) / TILES_ACROSS as int, i),
        forall|x: int, y: int|
            0 <= x < TILES_ACROSS && 0 <= y < TILES_ACROSS && #[trigger] in_tile(x, y, i) ==> x
                == tile_of(i) % TILES_ACROSS as int && y == tile_of(i) / TILES_ACROSS as int,
        0 <= tile_offset(tile_of(i) % TILES_ACROSS as int, tile_of(i) / TILES_ACROSS as int, i)
            < CHUNK_SIZE,
        tile_index(
            tile_of(i) % TILES_ACROSS as int,
            tile_of(i) / TILES_ACROSS as int,
            tile_offset(tile_of(i) % TILES_ACROSS as int, tile_of(i) / TILES_ACROSS as int, i),
        ) == i,
{
    let w = DISPLAY_WIDTH as int;
    let th = CHUNK_HEIGHT as int;
    let tw = CHUNK_WIDTH as int;
    let row = i / w;
    let col = i % w;
    lemma_fundamental_div_mod(i, w);
    assert(0 <= row < DISPLAY_HEIGHT) by (nonlinear_arith)
        requires
            i == w * row + col,
            0 <= col < w,
            0 <= i < DISPLAY_SIZE,
            w == DISPLAY_WIDTH,
            DISPLAY_SIZE == DISPLAY_WIDTH * DISPLAY_HEIGHT,
    ;
    let ty = row / th;
    let tx = col / tw;
    lemma_fundamental_div_mod(row, th);
    lemma_fundamental_div_mod(col, tw);
    assert(0 <= ty < 8) by (nonlinear_arith)
        requires
            row == th * ty + row % th,
            0 <= row % th < th,
            0 <= row < 2480,
            th == 310,
    ;
    assert(0 <= tx < 8) by (nonlinear_arith)
        requires
            col == tw * tx + col % tw,
            0 <= col % tw < tw,
            0 <= col < 1872,
            tw == 234,
    ;
    let t = ty * 8 + tx;
    assert(t == tile_of(i));
    assert(t % 8 == tx && t / 8 == ty) by {
        lemma_fundamental_div_mod_converse(t, 8, ty, tx);
    }
    assert forall|x: int, y: int|
        0 <= x < TILES_ACROSS && 0 <= y < TILES_ACROSS && #[trigger] in_tile(x, y, i) implies x
        == tx && y == ty by {
        lemma_fundamental_div_mod_converse(row, th, y, row - y * th);
        lemma_fundamental_div_mod_converse(col, tw, x, col - x * tw);
    }
    let r = row - ty * th;
    let c = col - tx * tw;
    assert(0 <= r * tw + c < CHUNK_SIZE) by (nonlinear_arith)
        requires
            0 <= r < th,
            0 <= c < tw,
            th == CHUNK_HEIGHT,
            tw == CHUNK_WIDTH,
            CHUNK_SIZE == CHUNK_WIDTH * CHUNK_HEIGHT,
    ;
    lemma_tile_pos(r, c);
    assert(tile_offset(tx, ty, i) == r * tw + c);
    assert(tile_index(tx, ty, r * tw + c) == (ty * th + r) * w + tx * tw + c);
    assert((ty * th + r) * w + tx * tw + c == w * row + col) by (nonlinear_arith)
        requires
            ty * th + r == row,
            tx * tw + c == col,
    ;
}

/// Writing tile `t` of display `fb` over `front` puts `fb`'s pixels in that
/// tile and leaves every other pixel alone.
proof fn lemma_place_display_tile(fb: Seq<u8>, front: Seq<u8>, t: int, i: int)
    requires
        fb.len() == DISPLAY_SIZE,
        front.len() == DISPLAY_SIZE,
        0 <= t < TILES_ACROSS * TILES_ACROSS,
        0 <= i < DISPLAY_SIZE,
    ensures
        place_tile(front, display_tile(fb, t), t % TILES_ACROSS as int, t / TILES_ACROSS as int)[i]
            == if tile_of(i) == t {
            fb[i]
        } else {
            front[i]
        },
{
    lemma_pixel_tile(i);
    let x = t % TILES_ACROSS as int;
    let y = t / TILES_ACROSS as int;
    if tile_of(i) == t {
    } else {
        if in_tile(x, y, i) {
            assert(t == y * 8 + x);
            assert(false);
        }
    }
}

/// The delivered fragment numbers of a tile, other than its last one.
spec fn nonlast(d: Set<int>, n: nat) -> Set<int> {
    d.intersect(set_int_range(0, n - 1))
}

/// Bytes received for a tile of `size` compressed bytes once the fragments
/// numbered in `d` have arrived, each once.
spec fn received_for(d: Set<int>, size: nat) -> nat {
    let n = fragment_count(size);
    (nonlast(d, n).len() * FRAGMENT_PAYLOAD + if d.contains(n - 1) {
        fragment_len(size, ((n - 1) * FRAGMENT_PAYLOAD) as nat)
    } else {
        0
    }) as nat
}

/// Every fragment of a tile of `size` bytes is in `d`.
spec fn complete(d: Set<int>, size: nat) -> bool {
    forall|k: int| 0 <= k < fragment_count(size) ==> #[trigger] d.contains(k)
}

/// Fragment `k` of a tile of `size` bytes is full length unless it is the
/// last, which holds the rest; together they make up `size`.
proof fn lemma_fragment_shape(size: nat, k: int)
    requires
        size > 0,
        0 <= k < fragment_count(size),
    ensures
        fragment_count(size) >= 1,
        k < fragment_count(size) - 1 ==> fragment_len(size, (k * FRAGMENT_PAYLOAD) as nat)
            == FRAGMENT_PAYLOAD,
        k * FRAGMENT_PAYLOAD + fragment_len(size, (k * FRAGMENT_PAYLOAD) as nat) <= size,
        0 < fragment_len(size, (k * FRAGMENT_PAYLOAD) as nat),
        (fragment_count(size) - 1) * FRAGMENT_PAYLOAD + fragment_len(
            size,
            ((fragment_count(size) - 1) * FRAGMENT_PAYLOAD) as nat,
        ) == size,
{
    let p = FRAGMENT_PAYLOAD as int;
    let n = fragment_count(size) as int;
    let q = (size - 1) / p;
    lemma_fundamental_div_mod(size - 1, p);
    assert(n == q + 1);
    assert(k * p >= 0) by (nonlinear_arith)
        requires
            k >= 0,
            p > 0,
    ;
    assert(k <= q ==> k * p <= q * p) by (nonlinear_arith)
        requires
            p > 0,
    ;
    assert(k < q ==> (k + 1) * p <= q * p) by (nonlinear_arith)
        requires
            p > 0,
    ;
    assert((k + 1) * p == k * p + p) by (nonlinear_arith);
    assert(q * p >= 0) by (nonlinear_arith)
        requires
            q >= 0,
            p > 0,
    ;
}

/// Position `pos` of a tile's compressed bytes lies in fragment `pos / P`,
/// which is one of the tile's fragments.
proof fn lemma_position_fragment(size: nat, pos: int)
    requires
        0 <= pos < size,
    ensures
        0 <= (pos / FRAGMENT_PAYLOAD as int) < fragment_count(size),
{
    let p = FRAGMENT_PAYLOAD as int;
    lemma_fundamental_div_mod(pos, p);
    lemma_fundamental_div_mod(size - 1, p);
    let a = pos / p;
    let q = (size - 1) / p;
    assert(a <= q) by (nonlinear_arith)
        requires
            pos == p * a + pos % p,
            size - 1 == p * q + (size - 1) % p,
            0 <= pos % p < p,
            0 <= (size - 1) % p < p,
            pos <= size - 1,
            p > 0,
    ;
    assert(a >= 0) by (nonlinear_arith)
        requires
            pos == p * a + pos % p,
            0 <= pos % p < p,
            pos >= 0,
            p > 0,
    ;
}

/// A fragment arriving for the first time adds its length.
proof fn lemma_received_insert(d: Set<int>, size: nat, k: int)
    requires
        size > 0,
        d.subset_of(set_int_range(0, fragment_count(size) as int)),
        0 <= k < fragment_count(size),
        !d.contains(k),
    ensures
        received_for(d.insert(k), size) == received_for(d, size) + fragment_len(
            size,
            (k * FRAGMENT_PAYLOAD) as nat,
        ),
{
    let n = fragment_count(size);
    lemma_fragment_shape(size, k);
    lemma_int_range(0, n as int);
    lemma_int_range(0, n - 1);
    lemma_len_subset(nonlast(d, n), set_int_range(0, n - 1));
    if k < n - 1 {
        assert(nonlast(d.insert(k), n) =~= nonlast(d, n).insert(k));
        assert((nonlast(d, n).len() + 1) * FRAGMENT_PAYLOAD == nonlast(d,
            n).len() * FRAGMENT_PAYLOAD
            + FRAGMENT_PAYLOAD) by (nonlinear_arith);
    } else {
        assert(nonlast(d.insert(k), n) =~= nonlast(d, n));
    }
}

/// The bytes received reach the tile's size exactly when every fragment has
/// arrived, and never exceed it.
proof fn lemma_received_complete(d: Set<int>, size: nat)
    requires
        size > 0,
        d.subset_of(set_int_range(0, fragment_count(size) as int)),
    ensures
        received_for(d, size) <= size,
        received_for(d, size) == size <==> complete(d, size),
{
    let n = fragment_count(size);
    lemma_fragment_shape(size, 0);
    lemma_fragment_shape(size, n - 1);
    let last = fragment_len(size, ((n - 1) * FRAGMENT_PAYLOAD) as nat);
    lemma_int_range(0, n - 1);
    let a = nonlast(d, n);
    lemma_len_subset(a, set_int_range(0, n - 1));
    assert(a.len() * FRAGMENT_PAYLOAD <= (n - 1) * FRAGMENT_PAYLOAD) by (nonlinear_arith)
        requires
            a.len() <= n - 1,
    ;
    if complete(d, size) {
        assert(a =~= set_int_range(0, n - 1));
    } else {
        let k = choose|k: int| 0 <= k < n && !d.contains(k);
        if k < n - 1 {
            assert(!a.contains(k));
            if a.len() == n - 1 {
                lemma_subset_equality(a, set_int_range(0, n - 1));
                assert(false);
            }
            assert(a.len() * FRAGMENT_PAYLOAD + FRAGMENT_PAYLOAD <= (n - 1) * FRAGMENT_PAYLOAD)
                by (nonlinear_arith)
                requires
                    a.len() < n - 1,
            ;
        }
    }
}

/// The datagram that carries fragment `f` of tile `c`.
pub open spec fn fragment_datagram(f: Fragment, c: Chunk) -> Datagram {
    Datagram {
        frame: f.frame,
        chunks: f.chunks,
        x: f.x,
        y: f.y,
        size: f.size,
        offset: f.offset,
        payload: c.encoded@.subrange(f.offset as int, f.offset + f.len),
    }
}

/// `pick` names fragment `pick.1` of tile `pick.0`, one that the sender cuts
/// for a tile flagged in `changed`.
pub open spec fn valid_pick(chunks: Seq<Chunk>, changed: Seq<bool>, pick: (int, int)) -> bool {
    &&& 0 <= pick.0 < NUM_CHUNKS
    &&& changed[pick.0]
    &&& 0 <= pick.1 < fragment_count(chunks[pick.0].size as nat)
}

/// `picks` names every fragment of every changed tile exactly once, in some
/// order.
pub open spec fn each_fragment_once(
    chunks: Seq<Chunk>,
    changed: Seq<bool>,
    picks: Seq<(int, int)>,
) -> bool {
    &&& forall|j: int| 0 <= j < picks.len() ==> valid_pick(chunks, changed, #[trigger] picks[j])
    &&& forall|a: int, b: int| 0 <= a < b < picks.len()
        ==> #[trigger] picks[a] != #[trigger] picks[b]
    &&& forall|pick: (int, int)|
        #[trigger] valid_pick(chunks, changed, pick) ==> exists|j: int| 0 <= j < picks.len()
            && picks[j] == pick
}

/// The datagrams of frame `frame`, in which the tiles flagged in `changed`
/// changed, in the order `picks`.
pub open spec fn frame_datagrams(
    frame: u32,
    chunks: Seq<Chunk>,
    changed: Seq<bool>,
    picks: Seq<(int, int)>,
) -> Seq<
    Datagram,
> {
    Seq::new(
        picks.len(),
        |j: int|
            fragment_datagram(
                tile_fragments(
                    frame,
                    count_changed(changed) as u32,
                    picks[j].0,
                    chunks[picks[j].0],
                )[picks[j].1],
                chunks[picks[j].0],
            ),
    )
}

/// Fragment numbers of tile `idx` among the first `j` picks.
spec fn delivered(picks: Seq<(int, int)>, j: int, idx: int) -> Set<int> {
    Set::new(|k: int| exists|jj: int| 0 <= jj < j && picks[jj] == (idx, k))
}

/// The tiles are the display's, each changed one with a non-empty block that
/// decodes to its pixels of `fb`.
spec fn blocks_of(fb: Seq<u8>, chunks: Seq<Chunk>, changed: Seq<bool>) -> bool {
    &&& fb.len() == DISPLAY_SIZE
    &&& display_layout(chunks)
    &&& changed.len() == NUM_CHUNKS
    &&& forall|i: int|
        0 <= i < NUM_CHUNKS && changed[i] ==> (#[trigger] chunks[i]).size > 0 && lz4_unblock(
            chunks[i].payload(),
        ) == Some(display_tile(fb, i))
}

/// The state of reassembly after the first `j` datagrams of the frame.
spec fn reassembly(
    fb: Seq<u8>,
    chunks: Seq<Chunk>,
    changed: Seq<bool>,
    e: u32,
    front0: Seq<u8>,
    picks: Seq<(int, int)>,
    j: int,
    t: Trace,
) -> bool {
    let st = arbitrate(t.state, e);
    &&& t.state.frame <= e
    &&& j > 0 ==> t.state.frame == e
    &&& state_wf(st)
    &&& t.front.len() == DISPLAY_SIZE
    &&& forall|idx: int|
        0 <= idx < NUM_CHUNKS ==> #[trigger] st.received[idx] == received_for(
            delivered(picks, j, idx),
            chunks[idx].size as nat,
        )
    &&& forall|idx: int, pos: int|
        0 <= idx < NUM_CHUNKS && 0 <= pos < chunks[idx].size && delivered(picks, j, idx).contains(
            pos / FRAGMENT_PAYLOAD as int,
        ) ==> #[trigger] st.encoded[idx][pos] == chunks[idx].payload()[pos]
    &&& forall|i: int|
        0 <= i < DISPLAY_SIZE ==> #[trigger] t.front[i] == if tile_complete(
            chunks,
            changed,
            picks,
            j,
            tile_of(i),
        ) {
            fb[i]
        } else {
            front0[i]
        }
}

/// Tile `idx` changed and every fragment of it is among the first `j` picks.
spec fn tile_complete(
    chunks: Seq<Chunk>,
    changed: Seq<bool>,
    picks: Seq<(int, int)>,
    j: int,
    idx: int,
) -> bool {
    changed[idx] && complete(delivered(picks, j, idx), chunks[idx].size as nat)
}

/// How the delivered sets grow with one more pick.
proof fn lemma_delivered_step(
    chunks: Seq<Chunk>,
    changed: Seq<bool>,
    picks: Seq<(int, int)>,
    j: int,
    idx: int,
)
    requires
        each_fragment_once(chunks, changed, picks),
        0 <= j < picks.len(),
        0 <= idx < NUM_CHUNKS,
    ensures
        delivered(picks, j, idx).subset_of(
            set_int_range(0, fragment_count(chunks[idx].size as nat) as int),
        ),
        delivered(picks, j + 1, idx) == if picks[j].0 == idx {
            delivered(picks, j, idx).insert(picks[j].1)
        } else {
            delivered(picks, j, idx)
        },
        picks[j].0 == idx ==> !delivered(picks, j, idx).contains(picks[j].1),
{
    assert forall|k: int| delivered(picks, j, idx).contains(k) implies set_int_range(
        0,
        fragment_count(chunks[idx].size as nat) as int,
    ).contains(k) by {
        let jj = choose|jj: int| 0 <= jj < j && picks[jj] == (idx, k);
        assert(valid_pick(chunks, changed, picks[jj]));
    }
    if picks[j].0 == idx {
        assert(delivered(picks, j + 1, idx) =~= delivered(picks, j, idx).insert(picks[j].1));
        if delivered(picks, j, idx).contains(picks[j].1) {
            let jj = choose|jj: int| 0 <= jj < j && picks[jj] == (idx, picks[j].1);
            assert(picks[jj] != picks[j]);
        }
    } else {
        assert(delivered(picks, j + 1, idx) =~= delivered(picks, j, idx));
    }
}

/// One more datagram of the frame keeps the reassembly invariant.
proof fn lemma_reassembly_step(
    fb: Seq<u8>,
    chunks: Seq<Chunk>,
    changed: Seq<bool>,
    e: u32,
    s: ReceiverState,
    front0: Seq<u8>,
    picks: Seq<(int, int)>,
    j: int,
)
    requires
        blocks_of(fb, chunks, changed),
        front0.len() == DISPLAY_SIZE,
        each_fragment_once(chunks, changed, picks),
        0 <= j < picks.len(),
        reassembly(fb, chunks, changed, e, front0, picks, j, run(s, front0, frame_datagrams(e,
            chunks, changed, picks).take(j))),
    ensures
        reassembly(
            fb,
            chunks,
            changed,
            e,
            front0,
            picks,
            j + 1,
            run(s, front0, frame_datagrams(e, chunks, changed, picks).take(j + 1)),
        ),
        ({
            let t = run(s, front0, frame_datagrams(e, chunks, changed, picks).take(j));
            let t2 = run(s, front0, frame_datagrams(e, chunks, changed, picks).take(j + 1));
            let st = arbitrate(t.state, e);
            let idx = picks[j].0;
            let done = tile_complete(chunks, changed, picks, j + 1, idx);
            let list = st.changed.push(((idx % TILES_ACROSS as int) as u8,
                (idx / TILES_ACROSS as int) as u8));
            &&& t2.state.changed == if done { list } else { st.changed }
            &&& t2.notes == if done && list.len() == count_changed(changed) {
                t.notes.push((e, list))
            } else {
                t.notes
            }
            &&& done ==> !tile_complete(chunks, changed, picks, j, idx)
            &&& tile_complete(chunks, changed, picks, j, idx) ==> done
            &&& forall|i: int|
                0 <= i < NUM_CHUNKS && i != idx ==> #[trigger] tile_complete(chunks, changed,
                    picks, j + 1, i)
                    == tile_complete(chunks, changed, picks, j, i)
        }),
{
    let ds = frame_datagrams(e, chunks, changed, picks);
    let t = run(s, front0, ds.take(j));
    assert(ds.take(j + 1).drop_last() =~= ds.take(j));
    let t2 = run(s, front0, ds.take(j + 1));
    assert(t2 == step(t, ds[j]));

    let idx = picks[j].0;
    let k = picks[j].1;
    assert(valid_pick(chunks, changed, picks[j]));
    let c = chunks[idx];
    assert(c.wf() && c.x == idx % TILES_ACROSS as int && c.y == idx / TILES_ACROSS as int);
    let size = c.size as nat;
    let n = fragment_count(size);
    lemma_fragment_shape(size, k);
    let off = k * FRAGMENT_PAYLOAD;
    let len = fragment_len(size, off as nat);
    let d = ds[j];
    lemma_count_changed_len(changed);
    assert(d.frame == e && d.chunks == count_changed(changed));
    assert(d.x == c.x && d.y == c.y);
    assert(d.size == size);
    assert(d.offset == off);
    assert(d.payload == c.encoded@.subrange(off, off + len));
    assert(slot_index(d.x, d.y) == idx);

    let st = arbitrate(t.state, e);
    lemma_delivered_step(chunks, changed, picks, j, idx);
    let dd = delivered(picks, j, idx);
    let dd2 = delivered(picks, j + 1, idx);
    assert(dd2 == dd.insert(k));
    lemma_received_insert(dd, size, k);
    lemma_received_complete(dd2, size);
    assert(dd2.subset_of(set_int_range(0, n as int)));
    assert(st.received[idx] == received_for(dd, size));

    let s2 = placed(st, idx, off, d.payload);
    assert(s2.received[idx] == received_for(dd2, size));
    assert(receive(t.state, t.front, d.frame, d.chunks, d.x, d.y, d.size, d.offset,
        d.payload).state.received
        == s2.received);
    assert(receive(t.state, t.front, d.frame, d.chunks, d.x, d.y, d.size, d.offset,
        d.payload).state.encoded
        == s2.encoded);
    let st2 = arbitrate(t2.state, e);
    assert(t2.state.frame == e);
    assert(st2 == t2.state);
    assert(st2.received == s2.received);
    assert(st2.encoded == s2.encoded);

    assert forall|i: int| 0 <= i < NUM_CHUNKS implies #[trigger] st2.received[i] == received_for(
        delivered(picks, j + 1, i),
        chunks[i].size as nat,
    ) by {
        lemma_delivered_step(chunks, changed, picks, j, i);
    }

    assert forall|i: int, pos: int|
        0 <= i < NUM_CHUNKS && 0 <= pos < chunks[i].size && delivered(picks, j + 1, i).contains(
            pos / FRAGMENT_PAYLOAD as int,
        ) implies #[trigger] st2.encoded[i][pos] == chunks[i].payload()[pos] by {
        lemma_delivered_step(chunks, changed, picks, j, i);
        if i == idx && off <= pos < off + len {
            assert(st2.encoded[i][pos] == d.payload[pos - off]);
        } else if i == idx {
            if pos / FRAGMENT_PAYLOAD as int == k {
                lemma_fundamental_div_mod(pos, FRAGMENT_PAYLOAD as int);
                assert(false) by (nonlinear_arith)
                    requires
                        pos == FRAGMENT_PAYLOAD * k + (pos % FRAGMENT_PAYLOAD as int),
                        0 <= (pos % FRAGMENT_PAYLOAD as int) < FRAGMENT_PAYLOAD,
                        off == k * FRAGMENT_PAYLOAD,
                        !(off <= pos < off + len),
                        len == FRAGMENT_PAYLOAD || off + len == size,
                        pos < size,
                ;
            }
            assert(st2.encoded[i][pos] == st.encoded[i][pos]);
        } else {
            assert(st2.encoded[i] == st.encoded[i]);
        }
    }

    let block = s2.encoded[idx].subrange(0, size as int);
    if complete(dd2, size) {
        assert forall|pos: int| 0 <= pos < size implies block[pos] == c.payload()[pos] by {
            lemma_position_fragment(size, pos);
        }
        assert(block =~= c.payload());
        assert(is_tile_block(block));
        assert(t2.front == place_tile(t.front, display_tile(fb, idx), idx % TILES_ACROSS as int,
            idx / TILES_ACROSS as int));
        assert forall|i: int| 0 <= i < DISPLAY_SIZE implies #[trigger] t2.front[i]
            == if tile_complete(
            chunks,
            changed,
            picks,
            j + 1,
            tile_of(i),
        ) {
            fb[i]
        } else {
            front0[i]
        } by {
            lemma_place_display_tile(fb, t.front, idx, i);
            lemma_pixel_tile(i);
            lemma_delivered_step(chunks, changed, picks, j, tile_of(i));
        }
    } else {
        assert(t2.front == t.front);
        assert forall|i: int| 0 <= i < DISPLAY_SIZE implies #[trigger] t2.front[i]
            == if tile_complete(
            chunks,
            changed,
            picks,
            j + 1,
            tile_of(i),
        ) {
            fb[i]
        } else {
            front0[i]
        } by {
            lemma_pixel_tile(i);
            lemma_delivered_step(chunks, changed, picks, j, tile_of(i));
            if tile_of(i) == idx {
                if complete(dd, size) {
                    assert forall|q: int| 0 <= q < n implies #[trigger] dd2.contains(q) by {
                        assert(dd.contains(q));
                    }
                }
            }
        }
    }
    if complete(dd2, size) {
        assert(!dd.contains(k));
    }
    if complete(dd, size) {
        assert forall|q: int| 0 <= q < n implies #[trigger] dd2.contains(q) by {
            assert(dd.contains(q));
        }
    }
    assert forall|i: int|
        0 <= i < NUM_CHUNKS && i != idx implies #[trigger] tile_complete(chunks, changed, picks,
            j + 1, i)
        == tile_complete(chunks, changed, picks, j, i) by {
        lemma_delivered_step(chunks, changed, picks, j, i);
    }
}

/// The reassembly invariant holds for every prefix of the frame's datagrams.
proof fn lemma_reassembly(
    fb: Seq<u8>,
    chunks: Seq<Chunk>,
    changed: Seq<bool>,
    e: u32,
    s: ReceiverState,
    front0: Seq<u8>,
    picks: Seq<(int, int)>,
    j: int,
)
    requires
        blocks_of(fb, chunks, changed),
        front0.len() == DISPLAY_SIZE,
        state_wf(s),
        s.frame < e || (s.frame == e && forall|i: int| 0 <= i < NUM_CHUNKS ==> s.received[i] == 0),
        each_fragment_once(chunks, changed, picks),
        0 <= j <= picks.len(),
    ensures
        reassembly(fb, chunks, changed, e, front0, picks, j, run(s, front0, frame_datagrams(e,
            chunks, changed, picks).take(j))),
    decreases j,
{
    let ds = frame_datagrams(e, chunks, changed, picks);
    if j == 0 {
        let t = run(s, front0, ds.take(0));
        assert(t == Trace { state: s, front: front0, notes: seq![] });
        let st = arbitrate(s, e);
        assert forall|idx: int| 0 <= idx < NUM_CHUNKS implies #[trigger] st.received[idx]
            == received_for(delivered(picks, 0, idx), chunks[idx].size as nat) by {
            assert(delivered(picks, 0, idx) =~= Set::empty());
            let n = fragment_count(chunks[idx].size as nat);
            assert(nonlast(delivered(picks, 0, idx), n) =~= Set::empty());
        }
        assert forall|i: int| 0 <= i < DISPLAY_SIZE implies #[trigger] t.front[i]
            == if tile_complete(
            chunks,
            changed,
            picks,
            0,
            tile_of(i),
        ) {
            fb[i]
        } else {
            front0[i]
        } by {
            lemma_pixel_tile(i);
            if changed[tile_of(i)] {
                let c = chunks[tile_of(i)];
                assert(c.size > 0);
                lemma_fragment_shape(c.size as nat, 0);
                assert(!delivered(picks, 0, tile_of(i)).contains(0));
            }
        }
    } else {
        lemma_reassembly(fb, chunks, changed, e, s, front0, picks, j - 1);
        lemma_reassembly_step(fb, chunks, changed, e, s, front0, picks, j - 1);
    }
}

/// The mask in which every tile of the display is flagged.
pub open spec fn all_tiles() -> Seq<bool> {
    Seq::new(NUM_CHUNKS as nat, |i: int| true)
}

proof fn lemma_count_all(m: nat)
    ensures
        count_changed(Seq::new(m, |i: int| true)) == m,
    decreases m,
{
    if m > 0 {
        lemma_count_all((m - 1) as nat);
        assert(Seq::new(m, |i: int| true).drop_last() =~= Seq::new((m - 1) as nat, |i: int| true));
    }
}

/// One frame's update: encode the display `fb`, with a change in exactly
/// the tiles flagged in `changed`, cut those tiles' compressed bytes into
/// fragments of `FRAGMENT_PAYLOAD` bytes under a newer epoch `frame`, and
/// deliver every such fragment once, in any order, to a receiver. Its front
/// buffer then holds `fb` in the changed tiles and keeps every other pixel
/// as it was, whatever frames were lost before; the renderer is handed one
/// list, naming each changed tile once, where any tile changed.
pub proof fn lemma_frame_update(
    fb: Seq<u8>,
    before: Seq<Chunk>,
    chunks: Seq<Chunk>,
    changed: Seq<bool>,
    frame: u32,
    s: ReceiverState,
    front: Seq<u8>,
    picks: Seq<(int, int)>,
)
    requires
        fb.len() == DISPLAY_SIZE,
        front.len() == DISPLAY_SIZE,
        display_layout(chunks),
        before.len() == NUM_CHUNKS,
        changed.len() == NUM_CHUNKS,
        forall|i: int|
            0 <= i < NUM_CHUNKS && changed[i] ==> {
                &&& (#[trigger] chunks[i]).encoded_from(before[i], display_tile(fb, i))
                &&& before[i].changes(display_tile(fb, i))
            },
        state_wf(s),
        s.frame < frame || (s.frame == frame && s.changed.len() == 0 && forall|i: int|
            0 <= i < NUM_CHUNKS ==> s.received[i] == 0),
        each_fragment_once(chunks, changed, picks),
    ensures
        ({
            let t = run(s, front, frame_datagrams(frame, chunks, changed, picks));
            &&& t.front.len() == DISPLAY_SIZE
            &&& forall|i: int|
                0 <= i < DISPLAY_SIZE ==> #[trigger] t.front[i] == if changed[tile_of(i)] {
                    fb[i]
                } else {
                    front[i]
                }
            &&& t.notes.len() == if count_changed(changed) > 0 {
                1int
            } else {
                0int
            }
            &&& t.notes.len() > 0 ==> t.notes[0].0 == frame && changed_tiles_once(
                t.notes[0].1,
                changed,
            )
        }),
{
    let ds = frame_datagrams(frame, chunks, changed, picks);
    assert(blocks_of(fb, chunks, changed));
    lemma_reassembly(fb, chunks, changed, frame, s, front, picks, picks.len() as int);
    lemma_notices(fb, chunks, changed, frame, s, front, picks, picks.len() as int);
    assert(ds.take(picks.len() as int) =~= ds);
    assert forall|idx: int| 0 <= idx < NUM_CHUNKS implies #[trigger] tile_complete(
        chunks,
        changed,
        picks,
        picks.len() as int,
        idx,
    ) == changed[idx] by {
        if changed[idx] {
            let size = chunks[idx].size as nat;
            assert forall|k: int| 0 <= k < fragment_count(size) implies #[trigger] delivered(
                picks,
                picks.len() as int,
                idx,
            ).contains(k) by {
                assert(valid_pick(chunks, changed, (idx, k)));
                let jj = choose|jj: int| 0 <= jj < picks.len() && picks[jj] == (idx, k);
            }
        }
    }
    let t = run(s, front, ds);
    assert forall|i: int| 0 <= i < DISPLAY_SIZE implies #[trigger] t.front[i] == if changed[tile_of(
        i,
    )] {
        fb[i]
    } else {
        front[i]
    } by {
        lemma_pixel_tile(i);
    }
    assert(changed.subrange(0, NUM_CHUNKS as int) =~= changed);
    lemma_count_bounds(chunks, changed, picks, picks.len() as int, NUM_CHUNKS as int);
}

/// Round trip: encode every tile of a display `fb` with a change, cut each
/// tile's compressed bytes into fragments of `FRAGMENT_PAYLOAD` bytes under a
/// new epoch `frame`, and deliver every fragment once, in any order, to a
/// receiver: its front buffer then holds `fb` exactly, whatever it held
/// before, and the renderer has been handed exactly one list, naming every
/// tile once.
pub proof fn lemma_round_trip(
    fb: Seq<u8>,
    before: Seq<Chunk>,
    chunks: Seq<Chunk>,
    frame: u32,
    s: ReceiverState,
    front: Seq<u8>,
    picks: Seq<(int, int)>,
)
    requires
        fb.len() == DISPLAY_SIZE,
        front.len() == DISPLAY_SIZE,
        display_layout(chunks),
        before.len() == NUM_CHUNKS,
        forall|i: int|
            0 <= i < NUM_CHUNKS ==> {
                &&& (#[trigger] chunks[i]).encoded_from(before[i], display_tile(fb, i))
                &&& before[i].changes(display_tile(fb, i))
            },
        state_wf(s),
        s.frame < frame || (s.frame == frame && s.changed.len() == 0 && forall|i: int|
            0 <= i < NUM_CHUNKS ==> s.received[i] == 0),
        each_fragment_once(chunks, all_tiles(), picks),
    ensures
        run(s, front, frame_datagrams(frame, chunks, all_tiles(), picks)).front == fb,
        run(s, front, frame_datagrams(frame, chunks, all_tiles(), picks)).notes.len() == 1,
        run(s, front, frame_datagrams(frame, chunks, all_tiles(), picks)).notes[0].0 == frame,
        every_tile_once(run(s, front, frame_datagrams(frame, chunks, all_tiles(),
            picks)).notes[0].1),
{
    lemma_count_all(NUM_CHUNKS as nat);
    lemma_frame_update(fb, before, chunks, all_tiles(), frame, s, front, picks);
    let t = run(s, front, frame_datagrams(frame, chunks, all_tiles(), picks));
    assert(t.front =~= fb);
}

/// Tile and fragment number of each entry of `frame_fragments(.., changed)`.
spec fn fragment_pairs(chunks: Seq<Chunk>, changed: Seq<bool>) -> Seq<(int, int)>
    decreases changed.len(),
{
    if changed.len() == 0 {
        seq![]
    } else {
        let n = changed.len() - 1;
        fragment_pairs(chunks, changed.drop_last()) + if changed[n] {
            Seq::new(fragment_count(chunks[n].size as nat), |k: int| (n, k))
        } else {
            seq![]
        }
    }
}

/// `pick` names a fragment of a tile flagged in `changed`.
spec fn in_frame(chunks: Seq<Chunk>, changed: Seq<bool>, pick: (int, int)) -> bool {
    &&& 0 <= pick.0 < changed.len()
    &&& changed[pick.0]
    &&& 0 <= pick.1 < fragment_count(chunks[pick.0].size as nat)
}

/// The sender's fragment list holds each fragment of each changed tile once,
/// tile by tile and in ascending fragment number.
proof fn lemma_fragment_pairs(frame: u32, count: u32, chunks: Seq<Chunk>, changed: Seq<bool>)
    requires
        changed.len() <= chunks.len(),
    ensures
        ({
            let fs = frame_fragments(frame, count, chunks, changed);
            let ps = fragment_pairs(chunks, changed);
            &&& fs.len() == ps.len()
            &&& forall|q: int|
                0 <= q < ps.len() ==> {
                    &&& 0 <= (#[trigger] ps[q]).0 < changed.len()
                    &&& changed[ps[q].0]
                    &&& 0 <= ps[q].1 < fragment_count(chunks[ps[q].0].size as nat)
                    &&& fs[q] == tile_fragments(frame, count, ps[q].0, chunks[ps[q].0])[ps[q].1]
                }
            &&& forall|a: int, b: int|
                0 <= a < b < ps.len() ==> (#[trigger] ps[a]).0 < (#[trigger] ps[b]).0 || (ps[a].0
                    == ps[b].0 && ps[a].1 < ps[b].1)
            &&& forall|pick: (int, int)|
                #[trigger] in_frame(chunks, changed, pick) ==> exists|q: int|
                    0 <= q < ps.len() && ps[q] == pick
        }),
    decreases changed.len(),
{
    if changed.len() > 0 {
        let n = changed.len() - 1;
        let rest = changed.drop_last();
        lemma_fragment_pairs(frame, count, chunks, rest);
        let fs0 = frame_fragments(frame, count, chunks, rest);
        let ps0 = fragment_pairs(chunks, rest);
        let fs = frame_fragments(frame, count, chunks, changed);
        let ps = fragment_pairs(chunks, changed);
        let m = ps0.len();
        assert forall|q: int| 0 <= q < ps.len() implies {
            &&& 0 <= (#[trigger] ps[q]).0 < changed.len()
            &&& changed[ps[q].0]
            &&& 0 <= ps[q].1 < fragment_count(chunks[ps[q].0].size as nat)
            &&& fs[q] == tile_fragments(frame, count, ps[q].0, chunks[ps[q].0])[ps[q].1]
        } by {
            if q < m {
                assert(ps[q] == ps0[q]);
                assert(fs[q] == fs0[q]);
                assert(rest[ps0[q].0] == changed[ps0[q].0]);
            }
        }
        assert forall|pick: (int, int)| #[trigger] in_frame(chunks, changed,
            pick) implies exists|q: int|
            0 <= q < ps.len() && ps[q] == pick by {
            if pick.0 < n {
                assert(rest[pick.0] == changed[pick.0]);
                assert(in_frame(chunks, rest, pick));
                let q = choose|q: int| 0 <= q < ps0.len() && ps0[q] == pick;
                assert(ps[q] == ps0[q]);
            } else {
                assert(ps[m + pick.1] == pick);
            }
        }
    }
}

/// Round trip of what the sender emits: where every tile of `fb` was encoded
/// with a change, delivering the fragments that `Client::frame` lists for
/// that frame, each once and in any order `order`, to a receiver makes its
/// front buffer `fb` and hands the renderer one list, of every tile once.
pub proof fn lemma_round_trip_sent(
    fb: Seq<u8>,
    before: Seq<Chunk>,
    chunks: Seq<Chunk>,
    frame: u32,
    s: ReceiverState,
    front: Seq<u8>,
    order: Seq<int>,
)
    requires
        fb.len() == DISPLAY_SIZE,
        front.len() == DISPLAY_SIZE,
        display_layout(chunks),
        before.len() == NUM_CHUNKS,
        forall|i: int|
            0 <= i < NUM_CHUNKS ==> {
                &&& (#[trigger] chunks[i]).encoded_from(before[i], display_tile(fb, i))
                &&& before[i].changes(display_tile(fb, i))
            },
        state_wf(s),
        s.frame < frame || (s.frame == frame && s.changed.len() == 0 && forall|i: int|
            0 <= i < NUM_CHUNKS ==> s.received[i] == 0),
        ({
            let fs = frame_fragments(
                frame,
                NUM_CHUNKS as u32,
                chunks,
                Seq::new(NUM_CHUNKS as nat, |i: int| true),
            );
            &&& order.len() == fs.len()
            &&& forall|j: int| 0 <= j < order.len() ==> 0 <= #[trigger] order[j] < fs.len()
            &&& forall|a: int, b: int|
                0 <= a < b < order.len() ==> #[trigger] order[a] != #[trigger] order[b]
            &&& forall|q: int| 0 <= q < fs.len() ==> #[trigger] order.contains(q)
        }),
    ensures
        ({
            let fs = frame_fragments(
                frame,
                NUM_CHUNKS as u32,
                chunks,
                Seq::new(NUM_CHUNKS as nat, |i: int| true),
            );
            let t = run(
                s,
                front,
                Seq::new(
                    order.len(),
                    |j: int| fragment_datagram(fs[order[j]], chunks[fs[order[j]].chunk as int]),
                ),
            );
            &&& t.front == fb
            &&& t.notes.len() == 1
            &&& t.notes[0].0 == frame
            &&& every_tile_once(t.notes[0].1)
        }),
{
    let all = all_tiles();
    lemma_count_all(NUM_CHUNKS as nat);
    let fs = frame_fragments(frame, NUM_CHUNKS as u32, chunks, all);
    let ps = fragment_pairs(chunks, all);
    lemma_fragment_pairs(frame, NUM_CHUNKS as u32, chunks, all);
    let picks = Seq::new(order.len(), |j: int| ps[order[j]]);
    assert forall|j: int| 0 <= j < picks.len() implies valid_pick(chunks, all,
        #[trigger] picks[j]) by {
        assert(ps[order[j]] == picks[j]);
    }
    assert forall|a: int, b: int| 0 <= a < b < picks.len() implies #[trigger] picks[a]
        != #[trigger] picks[b] by {
        let qa = order[a];
        let qb = order[b];
        assert(ps[qa] == picks[a] && ps[qb] == picks[b]);
        if qa < qb {
            assert(ps[qa].0 < ps[qb].0 || (ps[qa].0 == ps[qb].0 && ps[qa].1 < ps[qb].1));
        } else {
            assert(ps[qb].0 < ps[qa].0 || (ps[qb].0 == ps[qa].0 && ps[qb].1 < ps[qa].1));
        }
    }
    assert forall|pick: (int, int)| #[trigger] valid_pick(chunks, all, pick) implies exists|j: int|
        0 <= j < picks.len() && picks[j] == pick by {
        assert(in_frame(chunks, all, pick));
        let q = choose|q: int| 0 <= q < ps.len() && ps[q] == pick;
        assert(order.contains(q));
        let j = choose|j: int| 0 <= j < order.len() && order[j] == q;
        assert(picks[j] == pick);
    }
    assert(each_fragment_once(chunks, all, picks));
    let sent = Seq::new(
        order.len(),
        |j: int| fragment_datagram(fs[order[j]], chunks[fs[order[j]].chunk as int]),
    );
    assert forall|j: int| 0 <= j < order.len() implies sent[j] == frame_datagrams(
        frame,
        chunks,
        all,
        picks,
    )[j] by {
        let q = order[j];
        assert(ps[q] == picks[j]);
        assert(fs[q] == tile_fragments(frame, NUM_CHUNKS as u32, ps[q].0,
            chunks[ps[q].0])[ps[q].1]);
        assert(fs[q].chunk as int == ps[q].0);
    }
    assert(sent =~= frame_datagrams(frame, chunks, all, picks));
    lemma_round_trip(fb, before, chunks, frame, s, front, picks);
}

/// Number of the first `m` tiles whose fragments are all among the first
/// `j` picks.
spec fn count_complete(
    chunks: Seq<Chunk>,
    changed: Seq<bool>,
    picks: Seq<(int, int)>,
    j: int,
    m: int,
) -> nat
    decreases m,
{
    if m <= 0 {
        0
    } else {
        count_complete(chunks, changed, picks, j, m - 1) + if tile_complete(chunks, changed,
            picks, j, m - 1) {
            1nat
        } else {
            0nat
        }
    }
}

proof fn lemma_count_bounds(
    chunks: Seq<Chunk>,
    changed: Seq<bool>,
    picks: Seq<(int, int)>,
    j: int,
    m: int,
)
    requires
        0 <= m <= changed.len(),
    ensures
        count_complete(chunks, changed, picks, j, m) <= count_changed(changed.subrange(0, m)),
        (forall|i: int|
            0 <= i < m && changed[i] ==> #[trigger] tile_complete(chunks, changed, picks, j, i))
            ==> count_complete(chunks, changed, picks, j, m)
                == count_changed(changed.subrange(0, m)),
        (forall|i: int| 0 <= i < m ==> !#[trigger] tile_complete(chunks, changed, picks, j, i))
            ==> count_complete(chunks, changed, picks, j, m) == 0,
    decreases m,
{
    if m > 0 {
        lemma_count_bounds(chunks, changed, picks, j, m - 1);
        assert(changed.subrange(0, m).drop_last() =~= changed.subrange(0, m - 1));
    }
}

/// No more flags are set than there are.
proof fn lemma_count_changed_len(changed: Seq<bool>)
    ensures
        count_changed(changed) <= changed.len(),
    decreases changed.len(),
{
    if changed.len() > 0 {
        lemma_count_changed_len(changed.drop_last());
    }
}

/// One more pick completes at most the tile it belongs to.
proof fn lemma_count_step(
    chunks: Seq<Chunk>,
    changed: Seq<bool>,
    picks: Seq<(int, int)>,
    j: int,
    m: int,
    idx: int,
)
    requires
        0 <= m <= NUM_CHUNKS,
        0 <= idx < NUM_CHUNKS,
        tile_complete(chunks, changed, picks, j, idx) ==> tile_complete(chunks, changed, picks,
            j + 1, idx),
        forall|i: int|
            0 <= i < NUM_CHUNKS && i != idx ==> #[trigger] tile_complete(chunks, changed, picks,
                j + 1, i)
                == tile_complete(chunks, changed, picks, j, i),
    ensures
        count_complete(chunks, changed, picks, j + 1, m) == count_complete(chunks, changed,
            picks, j, m) + if idx < m
            && tile_complete(chunks, changed, picks, j + 1, idx) && !tile_complete(chunks,
                changed, picks, j, idx) {
            1nat
        } else {
            0nat
        },
    decreases m,
{
    if m > 0 {
        lemma_count_step(chunks, changed, picks, j, m - 1, idx);
    }
}

/// A list of all the display's tiles, each once.
pub open spec fn every_tile_once(list: Seq<(u8, u8)>) -> bool {
    &&& list.len() == NUM_CHUNKS
    &&& forall|a: int, b: int| 0 <= a < b < list.len() ==> #[trigger] list[a] != #[trigger] list[b]
    &&& forall|q: int|
        0 <= q < list.len() ==> (#[trigger] list[q]).0 < TILES_ACROSS && list[q].1 < TILES_ACROSS
}

/// A list of the tiles flagged in `changed`, each once.
pub open spec fn changed_tiles_once(list: Seq<(u8, u8)>, changed: Seq<bool>) -> bool {
    &&& list.len() == count_changed(changed)
    &&& forall|a: int, b: int| 0 <= a < b < list.len() ==> #[trigger] list[a] != #[trigger] list[b]
    &&& forall|q: int|
        0 <= q < list.len() ==> {
            &&& (#[trigger] list[q]).0 < TILES_ACROSS
            &&& list[q].1 < TILES_ACROSS
            &&& changed[list[q].1 * TILES_ACROSS as int + list[q].0]
        }
}

/// The completed-tile list and the notices after the first `j` datagrams.
spec fn notices(
    chunks: Seq<Chunk>,
    changed: Seq<bool>,
    e: u32,
    picks: Seq<(int, int)>,
    j: int,
    t: Trace,
) -> bool {
    let st = arbitrate(t.state, e);
    let n = count_complete(chunks, changed, picks, j, NUM_CHUNKS as int);
    &&& st.changed.len() == n
    &&& forall|a: int, b: int|
        0 <= a < b < st.changed.len() ==> #[trigger] st.changed[a] != #[trigger] st.changed[b]
    &&& forall|q: int|
        0 <= q < st.changed.len() ==> {
            &&& (#[trigger] st.changed[q]).0 < TILES_ACROSS
            &&& st.changed[q].1 < TILES_ACROSS
            &&& tile_complete(
                chunks,
                changed,
                picks,
                j,
                st.changed[q].1 * TILES_ACROSS as int + st.changed[q].0,
            )
        }
    &&& t.notes.len() == if n == count_changed(changed) && n > 0 {
        1int
    } else {
        0int
    }
    &&& forall|q: int|
        0 <= q < t.notes.len() ==> (#[trigger] t.notes[q]).0 == e && changed_tiles_once(
            t.notes[q].1,
            changed,
        )
}

/// The notice invariant holds for every prefix of the frame's datagrams.
proof fn lemma_notices(
    fb: Seq<u8>,
    chunks: Seq<Chunk>,
    changed: Seq<bool>,
    e: u32,
    s: ReceiverState,
    front0: Seq<u8>,
    picks: Seq<(int, int)>,
    j: int,
)
    requires
        blocks_of(fb, chunks, changed),
        front0.len() == DISPLAY_SIZE,
        state_wf(s),
        s.frame < e || (s.frame == e && s.changed.len() == 0 && forall|i: int|
            0 <= i < NUM_CHUNKS ==> s.received[i] == 0),
        each_fragment_once(chunks, changed, picks),
        0 <= j <= picks.len(),
    ensures
        notices(chunks, changed, e, picks, j, run(s, front0, frame_datagrams(e, chunks, changed,
            picks).take(j))),
    decreases j,
{
    let ds = frame_datagrams(e, chunks, changed, picks);
    assert(changed.subrange(0, NUM_CHUNKS as int) =~= changed);
    lemma_count_changed_len(changed);
    if j == 0 {
        let t = run(s, front0, ds.take(0));
        assert(t == Trace { state: s, front: front0, notes: seq![] });
        assert forall|i: int| 0 <= i < NUM_CHUNKS implies !#[trigger] tile_complete(
            chunks,
            changed,
            picks,
            0,
            i,
        ) by {
            if changed[i] {
                let c = chunks[i];
                assert(c.size > 0);
                lemma_fragment_shape(c.size as nat, 0);
                assert(!delivered(picks, 0, i).contains(0));
            }
        }
        lemma_count_bounds(chunks, changed, picks, 0, NUM_CHUNKS as int);
    } else {
        let jm = j - 1;
        lemma_notices(fb, chunks, changed, e, s, front0, picks, jm);
        lemma_reassembly(fb, chunks, changed, e, s, front0, picks, jm);
        lemma_reassembly(fb, chunks, changed, e, s, front0, picks, j);
        lemma_reassembly_step(fb, chunks, changed, e, s, front0, picks, jm);
        let t = run(s, front0, ds.take(jm));
        let t2 = run(s, front0, ds.take(j));
        let st = arbitrate(t.state, e);
        let st2 = arbitrate(t2.state, e);
        assert(st2 == t2.state);
        let idx = picks[jm].0;
        assert(valid_pick(chunks, changed, picks[jm]));
        let done = tile_complete(chunks, changed, picks, j, idx);
        lemma_count_step(chunks, changed, picks, jm, NUM_CHUNKS as int, idx);
        lemma_count_bounds(chunks, changed, picks, j, NUM_CHUNKS as int);
        let p = ((idx % TILES_ACROSS as int) as u8, (idx / TILES_ACROSS as int) as u8);
        assert(p.1 * TILES_ACROSS as int + p.0 == idx);
        assert forall|q: int| 0 <= q < st2.changed.len() implies {
            &&& (#[trigger] st2.changed[q]).0 < TILES_ACROSS
            &&& st2.changed[q].1 < TILES_ACROSS
            &&& tile_complete(
                chunks,
                changed,
                picks,
                j,
                st2.changed[q].1 * TILES_ACROSS as int + st2.changed[q].0,
            )
        } by {
            if q < st.changed.len() {
                assert(st2.changed[q] == st.changed[q]);
                let i = st.changed[q].1 * TILES_ACROSS as int + st.changed[q].0;
                assert(tile_complete(chunks, changed, picks, jm, i));
            }
        }
        assert forall|a: int,
            b: int| 0 <= a < b < st2.changed.len() implies #[trigger] st2.changed[a]
            != #[trigger] st2.changed[b] by {
            if b == st.changed.len() && done {
                let i = st.changed[a].1 * TILES_ACROSS as int + st.changed[a].0;
                assert(tile_complete(chunks, changed, picks, jm, i));
            } else {
                assert(st2.changed[a] == st.changed[a] && st2.changed[b] == st.changed[b]);
            }
        }
        if done && st2.changed.len() == count_changed(changed) {
            assert(t2.notes == t.notes.push((e, st2.changed)));
            assert(changed_tiles_once(st2.changed, changed));
        }
    }
}

} // verus!
