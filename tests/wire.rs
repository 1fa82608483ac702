use fbmirror::client::{count_changed_tiles, pace, Client, Fragment, SendResult, SendStep};
use fbmirror::codec::{encode, Chunk};
use fbmirror::consts::{
    CHUNK_HEIGHT, CHUNK_SIZE, CHUNK_WIDTH, DISPLAY_SIZE, DISPLAY_WIDTH, FRAGMENT_PAYLOAD, FRAME_NANOS,
};
use fbmirror::messages::{u32_from_be, u32_to_be, Header};
use fbmirror::server::Server;

fn noise(seed: u32, n: usize) -> Vec<u8> {
    let mut x = seed;
    (0..n)
        .map(|_| {
            x = x.wrapping_mul(1_664_525).wrapping_add(1_013_904_223);
            (x >> 24) as u8
        })
        .collect()
}

fn write_tile(fb: &mut [u8], tx: usize, ty: usize, tile: &[u8]) {
    for r in 0..CHUNK_HEIGHT {
        let start = (ty * CHUNK_HEIGHT + r) * DISPLAY_WIDTH + tx * CHUNK_WIDTH;
        fb[start..start + CHUNK_WIDTH].copy_from_slice(&tile[r * CHUNK_WIDTH..(r + 1) * CHUNK_WIDTH]);
    }
}

fn payload<'a>(f: &Fragment, chunks: &'a [Chunk]) -> &'a [u8] {
    let start = f.offset as usize;
    &chunks[f.chunk].encoded[start..start + f.len]
}

fn wire(f: &Fragment, chunks: &[Chunk]) -> Vec<u8> {
    let mut msg = f.header().to_bytes();
    msg.extend_from_slice(payload(f, chunks));
    msg
}

/// Encodes `client.framebuffer` and returns the datagrams of the frame,
/// all of them taken as sent in one call.
fn capture(client: &mut Client) -> (Vec<Fragment>, Vec<Vec<u8>>) {
    let changed = encode(&client.framebuffer, &mut client.chunks);
    let fragments = client.frame(&changed);
    let msgs = fragments.iter().map(|f| wire(f, &client.chunks)).collect();
    if !fragments.is_empty() {
        let n = fragments.len();
        assert_eq!(client.send_step(0, n, SendResult::Accepted(n)), SendStep::Done);
    }
    (fragments, msgs)
}

/// A tile whose compressed bytes need exactly three fragments.
fn three_fragment_tile() -> Vec<u8> {
    for n in (2_000..6_000).step_by(100) {
        let mut tile = vec![0u8; CHUNK_SIZE];
        tile[..n].copy_from_slice(&noise(11, n));
        let len = lz4_flex::block::compress(&tile).len();
        if len > 2 * FRAGMENT_PAYLOAD && len <= 3 * FRAGMENT_PAYLOAD {
            return tile;
        }
    }
    panic!("no tile of three fragments found");
}

#[test]
fn header_is_big_endian() {
    let h = Header::new(0x0102_0304, 64, 3, 7, 4000, 1454);
    let b = h.to_bytes();
    assert_eq!(b, vec![1, 2, 3, 4, 0, 0, 0, 64, 3, 7, 0, 0, 0x0f, 0xa0, 0, 0, 0x05, 0xae]);
    let p = Header::parse(&b).unwrap();
    assert_eq!(p.frame, [1, 2, 3, 4]);
    assert_eq!(p.size, [0, 0, 0x0f, 0xa0]);
    assert_eq!((p.x, p.y), ([3], [7]));
    assert!(Header::parse(&b[..17]).is_none());
    assert_eq!(u32_to_be(0xdead_beef), [0xde, 0xad, 0xbe, 0xef]);
    assert_eq!(u32_from_be(&[9, 0xde, 0xad, 0xbe, 0xef], 1), 0xdead_beef);
}

#[test]
fn fragments_cover_a_tile() {
    let mut c = Chunk::new(2, 3);
    c.size = 4000;
    let mut client = Client::new();
    client.chunks[3 * 8 + 2] = c;
    let mut changed = [false; 64];
    changed[3 * 8 + 2] = true;
    assert_eq!(count_changed_tiles(&changed), 1);
    let frags = client.frame(&changed);
    let spans: Vec<(u32, usize)> = frags.iter().map(|f| (f.offset, f.len)).collect();
    assert_eq!(spans, vec![(0, 1454), (1454, 1454), (2908, 1092)]);
    assert_eq!(frags.iter().map(|f| f.len).sum::<usize>(), 4000);
    for f in &frags {
        assert_eq!((f.frame, f.chunks, f.x, f.y, f.size, f.chunk), (0, 1, 2, 3, 4000, 26));
    }
    assert_eq!(client.frame, 0);
    assert_eq!(client.send_step(0, 3, SendResult::Accepted(3)), SendStep::Done);
    assert_eq!(client.frame, 1);
}

#[test]
fn no_change_sends_nothing() {
    let mut client = Client::new();
    let (frags, _) = capture(&mut client);
    assert_eq!(frags.iter().map(|f| f.chunk).collect::<std::collections::BTreeSet<_>>().len(), 64);
    assert_eq!(client.frame, 1);
    let (frags, _) = capture(&mut client);
    assert!(frags.is_empty());
    assert_eq!(client.frame, 1);
}

#[test]
fn round_trip_in_reverse_order() {
    let mut client = Client::new();
    for (i, p) in client.framebuffer.iter_mut().enumerate() {
        *p = ((i / DISPLAY_WIDTH) * 3 + (i % DISPLAY_WIDTH) / 5) as u8;
    }
    let (_, msgs) = capture(&mut client);
    let mut server = Server::new();
    let mut front = vec![0u8; DISPLAY_SIZE];
    let mut notes = Vec::new();
    for m in msgs.iter().rev() {
        if let Some(list) = server.datagram(m, &mut front) {
            notes.push(list);
        }
    }
    assert!(front == client.framebuffer);
    assert_eq!(notes.len(), 1);
    assert_eq!(notes[0].len(), 64);
}

#[test]
fn single_pixel_flip() {
    let mut client = Client::new();
    let mut server = Server::new();
    let mut front = vec![0u8; DISPLAY_SIZE];
    let (_, msgs) = capture(&mut client);
    for m in &msgs {
        server.datagram(m, &mut front);
    }
    assert!(front.iter().all(|&p| p == 0));
    let (again, _) = capture(&mut client);
    assert!(again.is_empty());

    client.framebuffer[0] = 255;
    let changed = encode(&client.framebuffer, &mut client.chunks);
    let mut expected = [false; 64];
    expected[0] = true;
    assert_eq!(changed, expected);
    let frags = client.frame(&changed);
    let mut list = None;
    for f in &frags {
        assert_eq!((f.x, f.y), (0, 0));
        let r = server.message(2, 1, f.x, f.y, f.size, f.offset, payload(f, &client.chunks), &mut front);
        if r.is_some() {
            list = r;
        }
    }
    assert_eq!(list, Some(vec![(0, 0)]));
    assert_eq!(front[0], 255);
    assert!(front[1..].iter().all(|&p| p == 0));
    assert_eq!(server.current_frame(), 2);
}

#[test]
fn fragment_reordering() {
    let tile = three_fragment_tile();
    let mut client = Client::new();
    write_tile(&mut client.framebuffer, 5, 1, &tile);
    let changed = encode(&client.framebuffer, &mut client.chunks);
    let mut only = [false; 64];
    only[8 + 5] = changed[8 + 5];
    let frags = client.frame(&only);
    assert_eq!(frags.iter().map(|f| f.offset).collect::<Vec<_>>(), vec![0, 1454, 2908]);

    let mut server = Server::new();
    let mut front = vec![0u8; DISPLAY_SIZE];
    let mut fired = Vec::new();
    for k in [2usize, 0, 1] {
        let f = &frags[k];
        let r = server.message(3, 1, f.x, f.y, f.size, f.offset, payload(f, &client.chunks), &mut front);
        fired.push(r);
    }
    assert_eq!(fired, vec![None, None, Some(vec![(5, 1)])]);
    let mut expected = vec![0u8; DISPLAY_SIZE];
    write_tile(&mut expected, 5, 1, &tile);
    assert!(front == expected);
}

#[test]
fn frame_skip() {
    let mut client = Client::new();
    client.frame = 7;
    let mut server = Server::new();
    let mut front = vec![0u8; DISPLAY_SIZE];

    let seven = noise(1, CHUNK_SIZE);
    write_tile(&mut client.framebuffer, 0, 0, &seven);
    write_tile(&mut client.framebuffer, 1, 0, &seven);
    let (_, f7) = capture(&mut client);
    let eight = noise(2, CHUNK_SIZE);
    write_tile(&mut client.framebuffer, 0, 0, &eight);
    write_tile(&mut client.framebuffer, 1, 0, &eight);
    let (_, f8) = capture(&mut client);
    let nine = noise(3, CHUNK_SIZE);
    write_tile(&mut client.framebuffer, 0, 0, &nine);
    let (_, f9) = capture(&mut client);
    assert_eq!(client.frame, 10);
    assert!(!f8.is_empty());

    for m in f7.iter().chain(f9.iter()) {
        server.datagram(m, &mut front);
    }
    assert_eq!(server.current_frame(), 9);
    let mut expected = vec![0u8; DISPLAY_SIZE];
    write_tile(&mut expected, 0, 0, &nine);
    write_tile(&mut expected, 1, 0, &seven);
    assert!(front == expected);
}

#[test]
fn malformed_datagrams_are_dropped() {
    let mut server = Server::new();
    let mut front = vec![0u8; DISPLAY_SIZE];
    let block = lz4_flex::block::compress(&vec![6u8; CHUNK_SIZE]);
    let size = block.len() as u32;

    assert_eq!(server.message(5, 1, 9, 0, size, 0, &block, &mut front), None);
    assert_eq!(server.message(5, 1, 0, 8, size, 0, &block, &mut front), None);
    assert_eq!(server.message(5, 1, 0, 0, size, 1, &block, &mut front), None);
    let mut short = Header::new(5, 1, 0, 0, size, 0).to_bytes();
    short.truncate(17);
    assert_eq!(server.datagram(&short, &mut front), None);
    assert_eq!(server.current_frame(), 0);
    assert!(front.iter().all(|&p| p == 0));

    let r = server.message(5, 1, 0, 0, size, 0, &block, &mut front);
    assert_eq!(r, Some(vec![(0, 0)]));
    assert_eq!(server.current_frame(), 5);
    assert_eq!(front[0], 6);
}

#[test]
fn oversized_and_empty_datagrams_still_move_the_epoch() {
    let mut server = Server::new();
    let mut front = vec![0u8; DISPLAY_SIZE];
    assert_eq!(server.message(5, 1, 0, 0, 200_000, 0, &[1, 2, 3], &mut front), None);
    assert_eq!(server.current_frame(), 5);
    assert_eq!(server.message(6, 1, 0, 0, 200_000, 199_000, &[1, 2, 3], &mut front), None);
    assert_eq!(server.current_frame(), 6);
    let header_only = Header::new(7, 1, 2, 2, 10, 0).to_bytes();
    assert_eq!(header_only.len(), 18);
    assert_eq!(server.datagram(&header_only, &mut front), None);
    assert_eq!(server.current_frame(), 7);
    assert!(front.iter().all(|&p| p == 0));
}

#[test]
fn send_steps() {
    let mut client = Client::new();
    assert_eq!(client.send_step(0, 10, SendResult::Accepted(4)), SendStep::Resume(4));
    assert_eq!(client.send_step(4, 10, SendResult::Interrupted), SendStep::Resume(4));
    assert_eq!(client.frame, 0);
    assert_eq!(client.send_step(4, 10, SendResult::Failed), SendStep::Abort);
    assert_eq!(client.frame, 0);
    assert_eq!(client.send_step(4, 10, SendResult::Accepted(0)), SendStep::Abort);
    assert_eq!(client.send_step(4, 10, SendResult::Accepted(7)), SendStep::Abort);
    assert_eq!(client.frame, 0);
    assert_eq!(client.send_step(4, 10, SendResult::Accepted(6)), SendStep::Done);
    assert_eq!(client.frame, 1);
    client.frame = u32::MAX;
    assert_eq!(client.send_step(0, 1, SendResult::Accepted(1)), SendStep::Done);
    assert_eq!(client.frame, 0);
}

#[test]
fn pacing_ticks() {
    assert_eq!(FRAME_NANOS, 16_666_666);
    assert_eq!(pace(1_000, 400), (600, 1_000 + FRAME_NANOS));
    assert_eq!(pace(1_000, 1_000), (0, 1_000 + FRAME_NANOS));
    assert_eq!(pace(1_000, 5_000_000), (0, 1_000 + FRAME_NANOS));
    let mut deadline = 0u64;
    let mut ticks = 0;
    while deadline < 1_000_000_000 {
        deadline = pace(deadline, deadline).1;
        ticks += 1;
    }
    assert_eq!(ticks, 61);
    assert_eq!(deadline, 61 * FRAME_NANOS);
}

#[test]
fn constant_frames_send_nothing() {
    let mut client = Client::new();
    capture(&mut client);
    let epoch = client.frame;
    for _ in 0..60 {
        let (frags, _) = capture(&mut client);
        assert!(frags.is_empty());
    }
    assert_eq!(client.frame, epoch);
}

#[test]
fn stale_datagrams_are_ignored() {
    let mut server = Server::new();
    let mut front = vec![0u8; DISPLAY_SIZE];
    let block = lz4_flex::block::compress(&vec![6u8; CHUNK_SIZE]);
    let size = block.len() as u32;
    let half = block.len() / 2;
    assert_eq!(server.message(4, 1, 0, 0, size, 0, &block[..half], &mut front), None);
    assert_eq!(server.current_frame(), 4);
    assert_eq!(server.message(3, 1, 1, 0, size, 0, &block, &mut front), None);
    assert_eq!(server.current_frame(), 4);
    assert!(front.iter().all(|&p| p == 0));
    let r = server.message(4, 1, 0, 0, size, half as u32, &block[half..], &mut front);
    assert_eq!(r, Some(vec![(0, 0)]));
}

#[test]
fn one_notification_per_epoch() {
    let mut server = Server::new();
    let mut front = vec![0u8; DISPLAY_SIZE];
    let a = lz4_flex::block::compress(&vec![1u8; CHUNK_SIZE]);
    let b = lz4_flex::block::compress(&vec![2u8; CHUNK_SIZE]);
    assert_eq!(server.message(1, 2, 0, 0, a.len() as u32, 0, &a, &mut front), None);
    assert_eq!(server.message(1, 2, 1, 0, b.len() as u32, 0, &b, &mut front), Some(vec![(0, 0), (1, 0)]));
    assert_eq!(server.message(1, 2, 1, 0, b.len() as u32, 0, &b[..1], &mut front), None);
    assert_eq!(server.message(2, 1, 3, 3, a.len() as u32, 0, &a, &mut front), Some(vec![(3, 3)]));
}

#[test]
fn clear_forgets_progress() {
    let mut server = Server::new();
    let mut front = vec![0u8; DISPLAY_SIZE];
    let a = lz4_flex::block::compress(&vec![1u8; CHUNK_SIZE]);
    let half = a.len() / 2;
    server.message(1, 1, 0, 0, a.len() as u32, 0, &a[..half], &mut front);
    server.clear();
    assert_eq!(server.message(1, 1, 0, 0, a.len() as u32, half as u32, &a[half..], &mut front), None);
    assert_eq!(server.current_frame(), 1);
}
