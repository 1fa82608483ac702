//! The receiver: per-tile reassembly across a lossy stream, frame epochs,
//! and publication of completed tiles.

use vstd::prelude::*;
use vstd::slice::slice_subrange;

use crate::block::{lz4_unblock, max_output_size};
use crate::codec::{copy_run, decode, encoded_capacity, is_tile_block, place_tile};
use crate::consts::{CHUNK_SIZE, DISPLAY_SIZE, HEADER_SIZE, NUM_CHUNKS, TILES_ACROSS};
use crate::messages::{be_u32, u32_from_be};

verus! {

/// The receiver's state as the contracts see it.
pub struct ReceiverState {
    /// Current frame epoch.
    pub frame: u32,
    /// Bytes received per tile slot in the current epoch.
    pub received: Seq<u32>,
    /// Compressed bytes gathered per tile slot.
    pub encoded: Seq<Seq<u8>>,
    /// Tiles completed in the current epoch, in completion order.
    pub changed: Seq<(u8, u8)>,
}

/// What one datagram does: the next state, the next front buffer, and the
/// list handed to the renderer, if any.
pub struct Outcome {
    pub state: ReceiverState,
    pub front: Seq<u8>,
    pub notify: Option<Seq<(u8, u8)>>,
}

pub open spec fn state_wf(s: ReceiverState) -> bool {
    &&& s.received.len() == NUM_CHUNKS
    &&& s.encoded.len() == NUM_CHUNKS
    &&& forall|i: int| 0 <= i < NUM_CHUNKS ==> (#[trigger] s.encoded[i]).len() == encoded_capacity()
}

/// Slot of tile `(x, y)`.
pub open spec fn slot_index(x: u8, y: u8) -> int {
    y * TILES_ACROSS + x
}

/// A datagram's header names a tile of the display and its payload lies
/// inside the tile's compressed bytes.
pub open spec fn datagram_valid(x: u8, y: u8, size: u32, offset: u32, len: nat) -> bool {
    &&& x < TILES_ACROSS
    &&& y < TILES_ACROSS
    &&& offset + len <= size
}

/// A payload of `len` bytes at `offset` fits in a slot.
pub open spec fn fits_slot(offset: u32, len: nat) -> bool {
    offset + len <= encoded_capacity()
}

/// `a + b`, held at `u32::MAX`.
pub open spec fn saturating_sum(a: u32, b: nat) -> u32 {
    if a + b > u32::MAX {
        u32::MAX
    } else {
        (a + b) as u32
    }
}

/// `buf` with `data` written from index `at` on.
pub open spec fn overwrite(buf: Seq<u8>, at: int, data: Seq<u8>) -> Seq<u8> {
    Seq::new(buf.len(), |i: int| if at <= i < at + data.len() { data[i - at] } else { buf[i] })
}

/// `s` with every slot's progress and the completed-tile list forgotten.
pub open spec fn cleared(s: ReceiverState) -> ReceiverState {
    ReceiverState { received: Seq::new(NUM_CHUNKS as nat, |i: int| 0u32), changed: seq![], ..s }
}

/// `s` after seeing a datagram of epoch `frame`, not older than its own.
pub open spec fn arbitrate(s: ReceiverState, frame: u32) -> ReceiverState {
    if frame > s.frame {
        ReceiverState { frame, ..cleared(s) }
    } else {
        s
    }
}

/// `s` with `data` placed at `offset` in slot `idx`.
pub open spec fn placed(s: ReceiverState, idx: int, offset: int, data: Seq<u8>) -> ReceiverState {
    ReceiverState {
        received: s.received.update(idx, saturating_sum(s.received[idx], data.len())),
        encoded: s.encoded.update(idx, overwrite(s.encoded[idx], offset, data)),
        ..s
    }
}

/// The effect of one datagram with the given header values and payload.
/// An invalid or stale datagram changes nothing. Otherwise the epoch is
/// arbitrated, the payload is placed and counted where it fits a slot, and
/// a tile whose count reaches its size is decoded and published.
pub open spec fn receive(
    s: ReceiverState,
    front: Seq<u8>,
    frame: u32,
    chunks: u32,
    x: u8,
    y: u8,
    size: u32,
    offset: u32,
    data: Seq<u8>,
) -> Outcome {
    if !datagram_valid(x, y, size, offset, data.len()) || frame < s.frame {
        Outcome { state: s, front, notify: None }
    } else {
        let idx = slot_index(x, y);
        let s1 = arbitrate(s, frame);
        let s2 = if fits_slot(offset, data.len()) {
            placed(s1, idx, offset as int, data)
        } else {
            s1
        };
        let block = s2.encoded[idx].subrange(0, size as int);
        if s2.received[idx] != size || size > encoded_capacity() || !is_tile_block(block) {
            Outcome { state: s2, front, notify: None }
        } else {
            let s3 = ReceiverState { changed: s2.changed.push((x, y)), ..s2 };
            Outcome {
                state: s3,
                front: place_tile(front, lz4_unblock(block)->0, x as int, y as int),
                notify: if s3.changed.len() == chunks {
                    Some(s3.changed)
                } else {
                    None
                },
            }
        }
    }
}

/// The effect of the datagram `msg`: a header, then the payload. One shorter
/// than a header changes nothing.
pub open spec fn receive_datagram(s: ReceiverState, front: Seq<u8>, msg: Seq<u8>) -> Outcome {
    if msg.len() < HEADER_SIZE {
        Outcome { state: s, front, notify: None }
    } else {
        receive(
            s,
            front,
            be_u32(msg.subrange(0, 4)) as u32,
            be_u32(msg.subrange(4, 8)) as u32,
            msg[8],
            msg[9],
            be_u32(msg.subrange(10, 14)) as u32,
            be_u32(msg.subrange(14, 18)) as u32,
            msg.subrange(HEADER_SIZE as int, msg.len() as int),
        )
    }
}

/// The receiver: one slot per tile and the current epoch.
pub struct Server {
    frame: u32,
    received: Vec<u32>,
    encoded: Vec<Vec<u8>>,
    decoded: Vec<u8>,
    changed: Vec<(u8, u8)>,
}

impl View for Server {
    type V = ReceiverState;

    closed spec fn view(&self) -> ReceiverState {
        ReceiverState {
            frame: self.frame,
            received: self.received@,
            encoded: Seq::new(self.encoded@.len(), |i: int| self.encoded@[i]@),
            changed: self.changed@,
        }
    }
}

impl Server {
    pub closed spec fn wf(&self) -> bool {
        &&& self.received@.len() == NUM_CHUNKS
        &&& self.encoded@.len() == NUM_CHUNKS
        &&& forall|i: int|
            0 <= i < NUM_CHUNKS ==> (#[trigger] self.encoded@[i])@.len() == encoded_capacity()
        &&& self.decoded@.len() == CHUNK_SIZE
    }

    /// The receiver's state is well formed whenever the receiver is.
    pub proof fn lemma_wf(&self)
        requires
            self.wf(),
        ensures
            state_wf(self@),
    {
    }

    /// A receiver at epoch 0 with empty slots.
    pub fn new() -> (r: Server)
        ensures
            r.wf(),
            r@.frame == 0,
            r@.changed.len() == 0,
            forall|i: int| 0 <= i < NUM_CHUNKS ==> #[trigger] r@.received[i] == 0,
    {
        let capacity = max_output_size(CHUNK_SIZE);
        let mut received: Vec<u32> = Vec::new();
        let mut encoded: Vec<Vec<u8>> = Vec::new();
        let mut i: usize = 0;
        while i < NUM_CHUNKS
            invariant
                i <= NUM_CHUNKS,
                capacity == encoded_capacity(),
                received@.len() == i,
                encoded@.len() == i,
                forall|j: int| 0 <= j < i ==> #[trigger] received@[j] == 0,
                forall|j: int| 0 <= j < i ==> (#[trigger] encoded@[j])@.len() == capacity,
            decreases NUM_CHUNKS - i,
        {
            received.push(0);
            encoded.push(vec![0u8; capacity]);
            i = i + 1;
        }
        Server { frame: 0, received, encoded, decoded: vec![0u8; CHUNK_SIZE], changed: Vec::new() }
    }

    /// The current frame epoch.
    pub fn current_frame(&self) -> (r: u32)
        ensures
            r == self@.frame,
    {
        self.frame
    }

    /// Forgets every slot's progress and the tiles completed so far.
    pub fn clear(&mut self)
        requires
            old(self).wf(),
        ensures
            final(self).wf(),
            final(self)@ == cleared(old(self)@),
    {
        self.changed = Vec::new();
        let mut i: usize = 0;
        while i < NUM_CHUNKS
            invariant
                i <= NUM_CHUNKS,
                self.wf(),
                self.frame == old(self).frame,
                self.encoded == old(self).encoded,
                self.changed@.len() == 0,
                forall|j: int| 0 <= j < i ==> #[trigger] self.received@[j] == 0,
            decreases NUM_CHUNKS - i,
        {
            self.received.set(i, 0);
            i = i + 1;
        }
        assert(self.received@ =~= Seq::new(NUM_CHUNKS as nat, |j: int| 0u32));
        assert(self.changed@ =~= Seq::<(u8, u8)>::empty());
        assert(self@ == cleared(old(self)@));
    }

    /// Handles one datagram with the given header values and payload `data`,
    /// writing completed tiles over `front`. Returns the list of tiles
    /// completed in this epoch when its length reaches `chunks`.
    pub fn message(
        &mut self,
        frame: u32,
        chunks: u32,
        x: u8,
        y: u8,
        size: u32,
        offset: u32,
        data: &[u8],
        front: &mut [u8],
    ) -> (notify: Option<Vec<(u8, u8)>>)
        requires
            old(self).wf(),
            old(front)@.len() == DISPLAY_SIZE,
        ensures
            final(self).wf(),
            final(self)@ == receive(
                old(self)@,
                old(front)@,
                frame,
                chunks,
                x,
                y,
                size,
                offset,
                data@,
            ).state,
            final(front)@ == receive(
                old(self)@,
                old(front)@,
                frame,
                chunks,
                x,
                y,
                size,
                offset,
                data@,
            ).front,
            receive(old(self)@, old(front)@, frame, chunks, x, y, size, offset, data@).notify
                == match notify {
                Some(v) => Some(v@),
                None => None,
            },
    {
        if x >= TILES_ACROSS as u8 || y >= TILES_ACROSS as u8 {
            return None;
        }
        let len = data.len();
        if len > size as usize || offset as usize > size as usize - len {
            return None;
        }
        let idx: usize = y as usize * TILES_ACROSS + x as usize;
        if frame < self.frame {
            return None;
        }
        if frame > self.frame {
            self.clear();
            self.frame = frame;
        }
        let ghost s1 = self@;
        assert(s1 == arbitrate(old(self)@, frame));
        let capacity = self.encoded[idx].len();
        if offset as usize <= capacity && len <= capacity - offset as usize {
            copy_run(self.encoded[idx].as_mut_slice(), offset as usize, data, 0, len);
            let got = self.received[idx].saturating_add(len as u32);
            self.received.set(idx, got);
            assert(self.encoded@[idx as int]@ =~= overwrite(s1.encoded[idx as int],
                offset as int, data@));
            assert forall|j: int| 0 <= j < NUM_CHUNKS && j != idx implies self@.encoded[j]
                == s1.encoded[j] by {}
            assert(self@.encoded =~= placed(s1, idx as int, offset as int, data@).encoded);
            assert(self@ == placed(s1, idx as int, offset as int, data@));
        }
        let got = self.received[idx];
        if got != size || size as usize > capacity {
            return None;
        }
        let block = slice_subrange(self.encoded[idx].as_slice(), 0, size as usize);
        if !decode(front, self.decoded.as_mut_slice(), x, y, block) {
            return None;
        }
        self.changed.push((x, y));
        if self.changed.len() == chunks as usize {
            Some(copy_list(&self.changed))
        } else {
            None
        }
    }

    /// Handles the datagram `msg` as it came off the wire.
    pub fn datagram(&mut self, msg: &[u8], front: &mut [u8]) -> (notify: Option<Vec<(u8, u8)>>)
        requires
            old(self).wf(),
            old(front)@.len() == DISPLAY_SIZE,
        ensures
            final(self).wf(),
            final(self)@ == receive_datagram(old(self)@, old(front)@, msg@).state,
            final(front)@ == receive_datagram(old(self)@, old(front)@, msg@).front,
            receive_datagram(old(self)@, old(front)@, msg@).notify == match notify {
                Some(v) => Some(v@),
                None => None,
            },
    {
        if msg.len() < HEADER_SIZE {
            return None;
        }
        let frame = u32_from_be(msg, 0);
        let chunks = u32_from_be(msg, 4);
        let size = u32_from_be(msg, 10);
        let offset = u32_from_be(msg, 14);
        let data = slice_subrange(msg, HEADER_SIZE, msg.len());
        self.message(frame, chunks, msg[8], msg[9], size, offset, data, front)
    }
}

/// A copy of `v`.
fn copy_list(v: &Vec<(u8, u8)>) -> (r: Vec<(u8, u8)>)
    ensures
        r@ == v@,
{
    let mut r: Vec<(u8, u8)> = Vec::new();
    let mut i: usize = 0;
    while i < v.len()
        invariant
            i <= v@.len(),
            r@ == v@.subrange(0, i as int),
        decreases v@.len() - i,
    {
        r.push(v[i]);
        i = i + 1;
        assert(r@ =~= v@.subrange(0, i as int));
    }
    assert(v@.subrange(0, v@.len() as int) =~= v@);
    r
}

} // verus!
