//! The sender's per-frame decisions: which fragments go out, and the epoch.

use vstd::arithmetic::div_mod::lemma_fundamental_div_mod;
use vstd::prelude::*;

use crate::codec::{display_layout, encoded_capacity, new_chunks, Chunk};
use crate::consts::{DISPLAY_SIZE, FRAGMENT_PAYLOAD, FRAME_NANOS, NUM_CHUNKS};
use crate::messages::Header;

verus! {

/// One datagram to send: its header values and where its payload lies, namely
/// `chunks[chunk].encoded[offset .. offset + len]`.
#[derive(Clone, Copy, PartialEq, Eq, Structural)]
pub struct Fragment {
    pub frame: u32,
    pub chunks: u32,
    pub x: u8,
    pub y: u8,
    pub size: u32,
    pub offset: u32,
    pub chunk: usize,
    pub len: usize,
}

/// Number of fragments a tile of `size` compressed bytes is cut into.
pub open spec fn fragment_count(size: nat) -> nat {
    if size == 0 {
        0
    } else {
        ((size - 1) as nat / FRAGMENT_PAYLOAD as nat) + 1
    }
}

/// The fragment at index `k` of a tile of `size` bytes starts inside it
/// exactly when `k` is below the tile's fragment count.
pub(crate) proof fn lemma_fragment_index(size: nat, k: nat)
    ensures
        k * FRAGMENT_PAYLOAD < size <==> k < fragment_count(size),
{
    if size > 0 {
        let p = FRAGMENT_PAYLOAD as int;
        let q = (size - 1) / p;
        let r = (size - 1) % p;
        lemma_fundamental_div_mod(size - 1, p);
        assert(k <= q ==> k * p <= q * p) by (nonlinear_arith)
            requires
                p > 0,
        ;
        assert(k > q ==> k * p >= q * p + p) by (nonlinear_arith)
            requires
                p > 0,
        ;
    }
}

/// Payload length of the fragment at `offset` of a tile of `size` bytes.
pub open spec fn fragment_len(size: nat, offset: nat) -> nat {
    if size >= offset + FRAGMENT_PAYLOAD {
        FRAGMENT_PAYLOAD as nat
    } else {
        (size - offset) as nat
    }
}

/// The fragments of tile `c`, at index `index`, in ascending offset.
pub open spec fn tile_fragments(frame: u32, count: u32, index: int, c: Chunk) -> Seq<Fragment> {
    Seq::new(
        fragment_count(c.size as nat),
        |k: int|
            Fragment {
                frame,
                chunks: count,
                x: c.x,
                y: c.y,
                size: c.size as u32,
                offset: (k * FRAGMENT_PAYLOAD) as u32,
                chunk: index as usize,
                len: fragment_len(c.size as nat, (k * FRAGMENT_PAYLOAD) as nat) as usize,
            },
    )
}

/// Number of `true` flags in `changed`.
pub open spec fn count_changed(changed: Seq<bool>) -> nat
    decreases changed.len(),
{
    if changed.len() == 0 {
        0
    } else {
        count_changed(changed.drop_last()) + if changed.last() {
            1nat
        } else {
            0nat
        }
    }
}

/// The fragments of every changed tile among the first `changed.len()`, tile
/// by tile in index order.
pub open spec fn frame_fragments(frame: u32, count: u32, chunks: Seq<Chunk>,
    changed: Seq<bool>) -> Seq<
    Fragment,
>
    decreases changed.len(),
{
    if changed.len() == 0 {
        seq![]
    } else {
        let n = changed.len() - 1;
        frame_fragments(frame, count, chunks, changed.drop_last()) + if changed[n] {
            tile_fragments(frame, count, n, chunks[n])
        } else {
            seq![]
        }
    }
}

impl Fragment {
    /// This fragment's datagram header.
    pub fn header(&self) -> (h: Header)
        ensures
            h.frame_value() == self.frame,
            h.chunks_value() == self.chunks,
            h.x@ == seq![self.x],
            h.y@ == seq![self.y],
            h.size_value() == self.size,
            h.offset_value() == self.offset,
    {
        Header::new(self.frame, self.chunks, self.x, self.y, self.size, self.offset)
    }
}

/// Number of tiles flagged as changed.
pub fn count_changed_tiles(changed: &[bool; NUM_CHUNKS]) -> (n: usize)
    ensures
        n == count_changed(changed@),
        n <= NUM_CHUNKS,
{
    let mut n: usize = 0;
    let mut i: usize = 0;
    while i < NUM_CHUNKS
        invariant
            i <= NUM_CHUNKS,
            n <= i,
            n == count_changed(changed@.subrange(0, i as int)),
        decreases NUM_CHUNKS - i,
    {
        assert(changed@.subrange(0, i + 1).drop_last() =~= changed@.subrange(0, i as int));
        if changed[i] {
            n = n + 1;
        }
        i = i + 1;
    }
    assert(changed@.subrange(0, NUM_CHUNKS as int) =~= changed@);
    n
}

/// Appends the fragments of tile `c`, at index `index`, to `out`.
fn push_tile_fragments(out: &mut Vec<Fragment>, frame: u32, count: u32, index: usize, c: &Chunk)
    requires
        c.wf(),
    ensures
        final(out)@ == old(out)@ + tile_fragments(frame, count, index as int, *c),
{
    let ghost frags = tile_fragments(frame, count, index as int, *c);
    let size: usize = c.size;
    let mut offset: usize = 0;
    let mut k: usize = 0;
    while offset < size
        invariant
            size == c.size,
            size <= encoded_capacity(),
            offset == k * FRAGMENT_PAYLOAD,
            k <= fragment_count(size as nat),
            offset < size ==> k < fragment_count(size as nat),
            offset >= size ==> k == fragment_count(size as nat),
            frags == tile_fragments(frame, count, index as int, *c),
            frags.len() == fragment_count(size as nat),
            out@ == old(out)@ + frags.subrange(0, k as int),
        decreases fragment_count(size as nat) - k,
    {
        let len: usize = if size - offset >= FRAGMENT_PAYLOAD {
            FRAGMENT_PAYLOAD
        } else {
            size - offset
        };
        let f = Fragment {
            frame,
            chunks: count,
            x: c.x,
            y: c.y,
            size: size as u32,
            offset: offset as u32,
            chunk: index,
            len,
        };
        proof {
            lemma_fragment_index(size as nat, k as nat);
        }
        assert(f == frags[k as int]);
        out.push(f);
        assert(out@ =~= old(out)@ + frags.subrange(0, k + 1));
        assert((k + 1) * FRAGMENT_PAYLOAD == k * FRAGMENT_PAYLOAD + FRAGMENT_PAYLOAD) by (
        nonlinear_arith);
        offset = offset + FRAGMENT_PAYLOAD;
        k = k + 1;
        proof {
            lemma_fragment_index(size as nat, k as nat);
        }
    }
    assert(frags.subrange(0, k as int) =~= frags);
}

/// The sender: the display snapshot, its tiles and the frame epoch.
pub struct Client {
    /// The display as last read.
    pub framebuffer: Vec<u8>,
    /// The display's tiles in row-major order.
    pub chunks: Vec<Chunk>,
    /// Epoch of the next frame sent.
    pub frame: u32,
}

impl Client {
    pub open spec fn wf(&self) -> bool {
        &&& self.framebuffer@.len() == DISPLAY_SIZE
        &&& display_layout(self.chunks@)
    }

    /// A sender with a blank snapshot, no tile encoded yet, at epoch 0.
    pub fn new() -> (r: Client)
        ensures
            r.wf(),
            r.frame == 0,
            r.framebuffer@ == Seq::new(DISPLAY_SIZE as nat, |i: int| 0u8),
            forall|i: int|
                0 <= i < NUM_CHUNKS ==> (#[trigger] r.chunks@[i]).hash == 0 && r.chunks@[i].size
                    == 0,
    {
        Client { framebuffer: vec![0u8; DISPLAY_SIZE], chunks: new_chunks(), frame: 0 }
    }

    /// Lists what a frame sends once its tiles are encoded, `changed`
    /// flagging the tiles that changed: nothing where none changed, else
    /// every fragment of every changed tile under the current epoch. The
    /// epoch moves on only once the whole list is sent (`send_step`).
    pub fn frame(&self, changed: &[bool; NUM_CHUNKS]) -> (fragments: Vec<Fragment>)
        requires
            self.wf(),
        ensures
            count_changed(changed@) == 0 ==> fragments@.len() == 0,
            count_changed(changed@) != 0 ==> fragments@ == frame_fragments(
                self.frame,
                count_changed(changed@) as u32,
                self.chunks@,
                changed@,
            ),
    {
        let count = count_changed_tiles(changed);
        let mut fragments: Vec<Fragment> = Vec::new();
        if count == 0 {
            return fragments;
        }
        let mut i: usize = 0;
        while i < NUM_CHUNKS
            invariant
                self.wf(),
                i <= NUM_CHUNKS,
                count <= NUM_CHUNKS,
                fragments@ == frame_fragments(
                    self.frame,
                    count as u32,
                    self.chunks@,
                    changed@.subrange(0, i as int),
                ),
            decreases NUM_CHUNKS - i,
        {
            assert(changed@.subrange(0, i + 1).drop_last() =~= changed@.subrange(0, i as int));
            if changed[i] {
                push_tile_fragments(&mut fragments, self.frame, count as u32, i, &self.chunks[i]);
            }
            i = i + 1;
        }
        assert(changed@.subrange(0, NUM_CHUNKS as int) =~= changed@);
        fragments
    }

    /// Decides what follows one vectorised send call of a frame's `total`
    /// messages, of which the first `sent` were accepted before it. Accepted
    /// messages advance the cursor; an interrupted call is retried; any other
    /// outcome abandons the frame. Once every message is accepted the epoch
    /// moves to the next frame; otherwise it stays.
    pub fn send_step(&mut self, sent: usize, total: usize, result: SendResult) -> (step: SendStep)
        requires
            sent < total,
        ensures
            step == send_decision(sent, total, result),
            final(self).framebuffer == old(self).framebuffer,
            final(self).chunks == old(self).chunks,
            final(self).frame == if step == SendStep::Done {
                ((old(self).frame + 1) % 0x1_0000_0000) as u32
            } else {
                old(self).frame
            },
    {
        let step = match result {
            SendResult::Accepted(n) => {
                if n == 0 || n > total - sent {
                    SendStep::Abort
                } else if n == total - sent {
                    SendStep::Done
                } else {
                    SendStep::Resume(sent + n)
                }
            },
            SendResult::Interrupted => SendStep::Resume(sent),
            SendResult::Failed => SendStep::Abort,
        };
        if step == SendStep::Done {
            self.frame = self.frame.wrapping_add(1);
        }
        step
    }
}

/// What one vectorised send call reported.
#[derive(Clone, Copy, Debug, PartialEq, Eq, Structural)]
pub enum SendResult {
    /// The kernel accepted this many messages.
    Accepted(usize),
    /// The call was interrupted before sending anything.
    Interrupted,
    /// The call failed.
    Failed,
}

/// What to do after a send call.
#[derive(Clone, Copy, Debug, PartialEq, Eq, Structural)]
pub enum SendStep {
    /// Call again from this message on.
    Resume(usize),
    /// Every message was accepted.
    Done,
    /// Give up on this frame.
    Abort,
}

/// The step after a send call with outcome `result`, `sent` of `total`
/// messages having been accepted before it.
pub open spec fn send_decision(sent: usize, total: usize, result: SendResult) -> SendStep {
    match result {
        SendResult::Accepted(n) => if n == 0 || n > total - sent {
            SendStep::Abort
        } else if n == total - sent {
            SendStep::Done
        } else {
            SendStep::Resume((sent + n) as usize)
        },
        SendResult::Interrupted => SendStep::Resume(sent),
        SendResult::Failed => SendStep::Abort,
    }
}

/// One pacing tick at time `now` with the frame due at `deadline`, both in
/// nanoseconds: how long to sleep before the frame (nothing when it is
/// late), and the next frame's deadline, one frame time after this one.
pub fn pace(deadline: u64, now: u64) -> (r: (u64, u64))
    requires
        deadline <= u64::MAX - FRAME_NANOS,
    ensures
        r.0 == if deadline > now {
            (deadline - now) as u64
        } else {
            0
        },
        r.1 == deadline + FRAME_NANOS,
{
    let sleep: u64 = if deadline > now {
        deadline - now
    } else {
        0
    };
    (sleep, deadline + FRAME_NANOS)
}

} // verus!
