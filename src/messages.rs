//! The datagram header: 18 bytes, big-endian.

use vstd::prelude::*;

use crate::consts::HEADER_SIZE;

verus! {

/// The unsigned number that four bytes spell, most significant first.
pub open spec fn be_u32(b: Seq<u8>) -> nat {
    b[0] as nat * 0x1000000 + b[1] as nat * 0x10000 + b[2] as nat * 0x100 + b[3] as nat
}

/// The four big-endian bytes of `v`.
pub fn u32_to_be(v: u32) -> (r: [u8; 4])
    ensures
        be_u32(r@) == v,
{
    let r = [(v >> 24u32) as u8, (v >> 16u32) as u8, (v >> 8u32) as u8, v as u8];
    assert(((v >> 24u32) as u8) as u32 * 0x1000000 + ((v >> 16u32) as u8) as u32 * 0x10000 + ((v
        >> 8u32) as u8) as u32 * 0x100 + (v as u8) as u32 == v) by (bit_vector);
    r
}

/// The number spelled by `b[at .. at + 4]`, most significant byte first.
pub fn u32_from_be(b: &[u8], at: usize) -> (r: u32)
    requires
        at + 4 <= b@.len(),
    ensures
        r == be_u32(b@.subrange(at as int, at + 4)),
{
    let b0 = b[at];
    let b1 = b[at + 1];
    let b2 = b[at + 2];
    let b3 = b[at + 3];
    assert((b0 as u32) * 0x1000000 + (b1 as u32) * 0x10000 + (b2 as u32) * 0x100 + (b3 as u32)
        == ((b0 as u32) << 24u32) | ((b1 as u32) << 16u32) | ((b2 as u32) << 8u32) | (b3 as u32))
        by (bit_vector);
    ((b0 as u32) << 24u32) | ((b1 as u32) << 16u32) | ((b2 as u32) << 8u32) | (b3 as u32)
}

/// The header that starts every datagram, each field in big-endian bytes.
pub struct Header {
    /// Frame epoch.
    pub frame: [u8; 4],
    /// Number of tiles that changed in this frame.
    pub chunks: [u8; 4],
    /// Tile column.
    pub x: [u8; 1],
    /// Tile row.
    pub y: [u8; 1],
    /// Compressed length of the tile in this frame.
    pub size: [u8; 4],
    /// Position of this fragment's payload in the tile's compressed bytes.
    pub offset: [u8; 4],
}

impl Header {
    pub open spec fn frame_value(&self) -> nat {
        be_u32(self.frame@)
    }

    pub open spec fn chunks_value(&self) -> nat {
        be_u32(self.chunks@)
    }

    pub open spec fn size_value(&self) -> nat {
        be_u32(self.size@)
    }

    pub open spec fn offset_value(&self) -> nat {
        be_u32(self.offset@)
    }

    /// The header as it stands on the wire.
    pub open spec fn wire(&self) -> Seq<u8> {
        self.frame@ + self.chunks@ + self.x@ + self.y@ + self.size@ + self.offset@
    }

    /// The header with the given field values.
    pub fn new(frame: u32, chunks: u32, x: u8, y: u8, size: u32, offset: u32) -> (r: Header)
        ensures
            r.frame_value() == frame,
            r.chunks_value() == chunks,
            r.x@ == seq![x],
            r.y@ == seq![y],
            r.size_value() == size,
            r.offset_value() == offset,
    {
        let h = Header {
            frame: u32_to_be(frame),
            chunks: u32_to_be(chunks),
            x: [x],
            y: [y],
            size: u32_to_be(size),
            offset: u32_to_be(offset),
        };
        assert(h.x@ =~= seq![x]);
        assert(h.y@ =~= seq![y]);
        h
    }

    /// The header's wire bytes.
    pub fn to_bytes(&self) -> (r: Vec<u8>)
        ensures
            r@ == self.wire(),
            r@.len() == HEADER_SIZE,
    {
        let mut r: Vec<u8> = Vec::new();
        push_all(&mut r, &self.frame);
        push_all(&mut r, &self.chunks);
        push_all(&mut r, &self.x);
        push_all(&mut r, &self.y);
        push_all(&mut r, &self.size);
        push_all(&mut r, &self.offset);
        r
    }

    /// Reads the header at the start of `msg`; `None` where `msg` is shorter
    /// than a header.
    pub fn parse(msg: &[u8]) -> (r: Option<Header>)
        ensures
            r is Some <==> msg@.len() >= HEADER_SIZE,
            r matches Some(h) ==> h.wire() == msg@.subrange(0, HEADER_SIZE as int),
    {
        if msg.len() < HEADER_SIZE {
            return None;
        }
        let h = Header {
            frame: [msg[0], msg[1], msg[2], msg[3]],
            chunks: [msg[4], msg[5], msg[6], msg[7]],
            x: [msg[8]],
            y: [msg[9]],
            size: [msg[10], msg[11], msg[12], msg[13]],
            offset: [msg[14], msg[15], msg[16], msg[17]],
        };
        assert(h.wire() =~= msg@.subrange(0, HEADER_SIZE as int));
        Some(h)
    }
}

/// Appends the bytes of `b` to `v`.
fn push_all(v: &mut Vec<u8>, b: &[u8])
    ensures
        final(v)@ == old(v)@ + b@,
{
    let mut i: usize = 0;
    while i < b.len()
        invariant
            i <= b@.len(),
            v@ == old(v)@ + b@.subrange(0, i as int),
        decreases b@.len() - i,
    {
        v.push(b[i]);
        i = i + 1;
        assert(v@ =~= old(v)@ + b@.subrange(0, i as int));
    }
    assert(b@.subrange(0, b@.len() as int) =~= b@);
}

} // verus!
