//! Properties that hold across calls: change gating, hash determinism,
//! fragment coverage, and the receiver's epoch rules.

use vstd::prelude::*;

use crate::client::{fragment_count, fragment_len, lemma_fragment_index, tile_fragments, Fragment};
use crate::codec::{tile_pixels, Chunk};
use crate::consts::{DISPLAY_SIZE, FRAGMENT_PAYLOAD, FRAME_NANOS, NUM_CHUNKS, TILES_ACROSS};
use crate::hashing::fx_hash_of;
use crate::server::{receive, Outcome, ReceiverState};

verus! {

/// The pixels of tile `i` (row-major tile order) of the display `fb`.
pub open spec fn display_tile(fb: Seq<u8>, i: int) -> Seq<u8> {
    tile_pixels(fb, 0, i % TILES_ACROSS as int, i / TILES_ACROSS as int)
}

/// Encoding the same display twice in a row: in the second pass every tile
/// has been encoded and its hash matches, so no tile reports a change, and
/// every tile stays as the first pass left it, so nothing is compressed again.
pub proof fn lemma_encode_twice(fb: Seq<u8>, first: Seq<Chunk>, second: Seq<Chunk>,
    third: Seq<Chunk>)
    requires
        fb.len() == DISPLAY_SIZE,
        first.len() == NUM_CHUNKS,
        second.len() == NUM_CHUNKS,
        third.len() == NUM_CHUNKS,
        forall|i: int|
            0 <= i < NUM_CHUNKS ==> (#[trigger] second[i]).encoded_from(
                first[i],
                display_tile(fb, i),
            ),
        forall|i: int|
            0 <= i < NUM_CHUNKS ==> (#[trigger] third[i]).encoded_from(
                second[i],
                display_tile(fb, i),
            ),
    ensures
        forall|i: int|
            0 <= i < NUM_CHUNKS ==> !(#[trigger] second[i]).changes(display_tile(fb, i)),
        third == second,
{
    assert(third =~= second);
}

/// Two tiles with the same pixels hash alike, wherever they lie: once both
/// have been encoded with a change, they store the same hash and block.
pub proof fn lemma_hash_determinism(
    a_before: Chunk,
    a_after: Chunk,
    a_pixels: Seq<u8>,
    b_before: Chunk,
    b_after: Chunk,
    b_pixels: Seq<u8>,
)
    requires
        a_pixels == b_pixels,
        a_after.encoded_from(a_before, a_pixels),
        b_after.encoded_from(b_before, b_pixels),
    ensures
        fx_hash_of(a_pixels) == fx_hash_of(b_pixels),
        a_before.changes(a_pixels) && b_before.changes(b_pixels) ==> a_after.hash == b_after.hash
            && a_after.payload() == b_after.payload(),
{
}

/// Sum of the payload lengths of `fs`.
pub open spec fn total_len(fs: Seq<Fragment>) -> nat
    decreases fs.len(),
{
    if fs.len() == 0 {
        0
    } else {
        total_len(fs.drop_last()) + fs.last().len as nat
    }
}

/// The first `k` full fragments of a tile carry `k * FRAGMENT_PAYLOAD` bytes.
proof fn lemma_prefix_len(fs: Seq<Fragment>, size: nat, k: nat)
    requires
        fs.len() == fragment_count(size),
        k < fs.len(),
        size <= u32::MAX,
        forall|j: int|
            0 <= j < fs.len() ==> (#[trigger] fs[j]).len == fragment_len(
                size,
                (j * FRAGMENT_PAYLOAD) as nat,
            ),
    ensures
        total_len(fs.subrange(0, k as int)) == k * FRAGMENT_PAYLOAD,
    decreases k,
{
    if k > 0 {
        let km = (k - 1) as nat;
        lemma_prefix_len(fs, size, km);
        assert(fs.subrange(0, k as int).drop_last() =~= fs.subrange(0, km as int));
        lemma_fragment_index(size, k);
        assert(k * FRAGMENT_PAYLOAD == km * FRAGMENT_PAYLOAD + FRAGMENT_PAYLOAD) by (
        nonlinear_arith)
            requires
                km == k - 1,
        ;
    }
}

/// The fragments the sender cuts a tile into cover its compressed bytes
/// exactly: the first starts at 0, each starts where the one before ends, the
/// last ends at the tile's size, none is empty or longer than a datagram's
/// payload, and their lengths add up to the size.
pub proof fn lemma_fragment_coverage(frame: u32, count: u32, index: int, c: Chunk)
    requires
        c.wf(),
    ensures
        ({
            let fs = tile_fragments(frame, count, index, c);
            &&& total_len(fs) == c.size
            &&& fs.len() > 0 ==> fs[0].offset == 0
            &&& forall|k: int|
                0 <= k < fs.len() - 1 ==> #[trigger] fs[k].offset + fs[k].len == fs[k + 1].offset
            &&& fs.len() > 0 ==> fs.last().offset + fs.last().len == c.size
            &&& forall|k: int|
                0 <= k < fs.len() ==> 0 < (#[trigger] fs[k]).len <= FRAGMENT_PAYLOAD
        }),
{
    let fs = tile_fragments(frame, count, index, c);
    let size = c.size as nat;
    assert(size <= u32::MAX);
    assert forall|k: int| 0 <= k < fs.len() implies fs[k].offset == k * FRAGMENT_PAYLOAD && 0 < (
    #[trigger] fs[k]).len <= FRAGMENT_PAYLOAD && fs[k].offset + fs[k].len <= size by {
        lemma_fragment_index(size, k as nat);
        assert(k * FRAGMENT_PAYLOAD >= 0) by (nonlinear_arith)
            requires
                k >= 0,
        ;
    }
    assert forall|k: int| 0 <= k < fs.len() - 1 implies #[trigger] fs[k].offset + fs[k].len
        == fs[k + 1].offset by {
        lemma_fragment_index(size, (k + 1) as nat);
        assert((k + 1) * FRAGMENT_PAYLOAD == k * FRAGMENT_PAYLOAD + FRAGMENT_PAYLOAD) by (
        nonlinear_arith);
    }
    if fs.len() > 0 {
        let last = (fs.len() - 1) as nat;
        lemma_fragment_index(size, last);
        lemma_fragment_index(size, last + 1);
        assert((last + 1) * FRAGMENT_PAYLOAD == last * FRAGMENT_PAYLOAD + FRAGMENT_PAYLOAD) by (
        nonlinear_arith);
        lemma_prefix_len(fs, size, last);
        assert(fs.drop_last() =~= fs.subrange(0, last as int));
    }
}

/// The receiver's epoch never goes back, and a datagram from an older epoch
/// changes nothing.
pub proof fn lemma_epoch_monotonic(
    s: ReceiverState,
    front: Seq<u8>,
    frame: u32,
    chunks: u32,
    x: u8,
    y: u8,
    size: u32,
    offset: u32,
    data: Seq<u8>,
)
    ensures
        receive(s, front, frame, chunks, x, y, size, offset, data).state.frame >= s.frame,
        frame < s.frame ==> receive(s, front, frame, chunks, x, y, size, offset, data) == (Outcome {
            state: s,
            front,
            notify: None,
        }),
{
}

/// One datagram's header values and payload.
pub struct Datagram {
    pub frame: u32,
    pub chunks: u32,
    pub x: u8,
    pub y: u8,
    pub size: u32,
    pub offset: u32,
    pub payload: Seq<u8>,
}

/// The receiver after a run of datagrams, with every list handed to the
/// renderer, each with the epoch it was handed out in.
pub struct Trace {
    pub state: ReceiverState,
    pub front: Seq<u8>,
    pub notes: Seq<(u32, Seq<(u8, u8)>)>,
}

/// `t` after datagram `d`.
pub open spec fn step(t: Trace, d: Datagram) -> Trace {
    let o = receive(t.state, t.front, d.frame, d.chunks, d.x, d.y, d.size, d.offset, d.payload);
    Trace {
        state: o.state,
        front: o.front,
        notes: if o.notify is Some {
            t.notes.push((o.state.frame, o.notify->0))
        } else {
            t.notes
        },
    }
}

/// The receiver in state `s` with front buffer `front` after the datagrams
/// `ds`, in order.
pub open spec fn run(s: ReceiverState, front: Seq<u8>, ds: Seq<Datagram>) -> Trace
    decreases ds.len(),
{
    if ds.len() == 0 {
        Trace { state: s, front, notes: seq![] }
    } else {
        step(run(s, front, ds.drop_last()), ds.last())
    }
}

/// What one datagram does to the epoch, the completed-tile list and the
/// list handed out.
proof fn lemma_step_lists(t: Trace, d: Datagram)
    ensures
        step(t, d).state.frame >= t.state.frame,
        step(t, d).state.frame == t.state.frame ==> step(t, d).state.changed.len()
            >= t.state.changed.len(),
        step(t, d).notes.len() == t.notes.len() || step(t, d).notes == t.notes.push(
            (step(t, d).state.frame, step(t, d).state.changed),
        ),
        step(t, d).notes.len() != t.notes.len() ==> step(t, d).state.changed.len() == if step(
            t,
            d,
        ).state.frame == t.state.frame {
            t.state.changed.len() + 1
        } else {
            1
        },
{
}

/// Invariant of a run: the epoch only grows, no list carries a later epoch,
/// the lists of the current epoch are no longer than its completed-tile
/// list, and the lists of one epoch grow strictly in length.
proof fn lemma_run_lists(s: ReceiverState, front: Seq<u8>, ds: Seq<Datagram>)
    ensures
        ({
            let t = run(s, front, ds);
            &&& t.state.frame >= s.frame
            &&& forall|i: int| 0 <= i < t.notes.len() ==> (#[trigger] t.notes[i]).0 <= t.state.frame
            &&& forall|i: int|
                0 <= i < t.notes.len() && (#[trigger] t.notes[i]).0 == t.state.frame
                    ==> t.notes[i].1.len() <= t.state.changed.len()
            &&& forall|i: int, j: int|
                0 <= i < j < t.notes.len() && (#[trigger] t.notes[i]).0 == (#[trigger] t.notes[j]).0
                    ==> t.notes[i].1.len() < t.notes[j].1.len()
        }),
    decreases ds.len(),
{
    if ds.len() > 0 {
        let prev = run(s, front, ds.drop_last());
        lemma_run_lists(s, front, ds.drop_last());
        lemma_step_lists(prev, ds.last());
    }
}

/// Within one epoch the lists handed to the renderer grow strictly in
/// length, so at most one of them has the length a frame's headers give as
/// its tile count.
pub proof fn lemma_single_completion(s: ReceiverState, front: Seq<u8>, ds: Seq<Datagram>)
    ensures
        forall|i: int, j: int|
            0 <= i < j < run(s, front, ds).notes.len() && (#[trigger] run(s, front, ds).notes[i]).0
                == (#[trigger] run(s, front, ds).notes[j]).0 ==> run(s, front, ds).notes[i].1.len()
                < run(s, front, ds).notes[j].1.len(),
{
    lemma_run_lists(s, front, ds);
}

/// The deadline after `k` pacing ticks from the deadline `d0`: each tick of
/// `pace` moves it one frame time on, whatever the clock reads.
pub open spec fn deadline_after(d0: nat, k: nat) -> nat
    decreases k,
{
    if k == 0 {
        d0
    } else {
        deadline_after(d0, (k - 1) as nat) + FRAME_NANOS as nat
    }
}

/// Pacing does not drift: after `k` ticks the deadline is `k` frame times
/// on, so 60 ticks span at most one second and 61 ticks more than one.
pub proof fn lemma_pacing(d0: nat, k: nat)
    ensures
        deadline_after(d0, k) == d0 + k * FRAME_NANOS,
        deadline_after(d0, 60) <= d0 + 1_000_000_000 < deadline_after(d0, 61),
    decreases k,
{
    if k > 0 {
        lemma_pacing(d0, (k - 1) as nat);
        assert(k * FRAME_NANOS == (k - 1) * FRAME_NANOS + FRAME_NANOS) by (nonlinear_arith);
    }
    reveal_with_fuel(deadline_after, 62);
}

} // verus!
