use framing::codec::{encode, Framer};

fn frame(payload: &[u8]) -> Vec<u8> {
    encode(payload).expect("payload fits the 32-bit length prefix")
}

#[test]
fn encode_exact_bytes() {
    assert_eq!(frame(b"hi"), vec![0, 0, 0, 2, b'h', b'i']);
    assert_eq!(frame(b""), vec![0, 0, 0, 0]);
    assert_eq!(frame(b"hello"), vec![0, 0, 0, 5, b'h', b'e', b'l', b'l', b'o']);
}

#[test]
fn encode_length_above_one_byte() {
    let payload = vec![7u8; 0x1_02];
    let f = frame(&payload);
    assert_eq!(f.len(), 4 + 0x1_02);
    assert_eq!(&f[..4], &[0, 0, 1, 2]);
    assert_eq!(&f[4..], &payload[..]);
}

#[test]
fn round_trip_single_chunk() {
    let mut framer = Framer::new();
    let msgs = framer.feed(&frame(b"hello"));
    assert_eq!(msgs, vec![b"hello".to_vec()]);
}

#[test]
fn zero_length_payload_is_a_message() {
    let mut framer = Framer::new();
    let msgs = framer.feed(&frame(b""));
    assert_eq!(msgs, vec![Vec::<u8>::new()]);
}

#[test]
fn fragmentation_all_two_way_splits() {
    let wire = frame(b"hello");
    for cut in 0..=wire.len() {
        let mut framer = Framer::new();
        let mut got = framer.feed(&wire[..cut]);
        got.extend(framer.feed(&wire[cut..]));
        assert_eq!(got, vec![b"hello".to_vec()], "split at {cut}");
    }
}

#[test]
fn fragmentation_byte_by_byte() {
    let wire = frame(b"hello");
    let mut framer = Framer::new();
    let mut got = Vec::new();
    for byte in &wire {
        got.extend(framer.feed(std::slice::from_ref(byte)));
    }
    assert_eq!(got, vec![b"hello".to_vec()]);
}

#[test]
fn pipelining_two_frames_one_chunk() {
    let mut wire = frame(b"hello");
    wire.extend(frame(b"world"));
    let mut framer = Framer::new();
    let msgs = framer.feed(&wire);
    assert_eq!(msgs, vec![b"hello".to_vec(), b"world".to_vec()]);
}

#[test]
fn pipelining_chunk_straddles_frames() {
    // One chunk holds the tail of the first frame plus the head of the next.
    let mut wire = frame(b"hello");
    wire.extend(frame(b"world"));
    let mut framer = Framer::new();
    let mut got = framer.feed(&wire[..6]);
    got.extend(framer.feed(&wire[6..11]));
    got.extend(framer.feed(&wire[11..]));
    assert_eq!(got, vec![b"hello".to_vec(), b"world".to_vec()]);
}

#[test]
fn idempotent_suspension() {
    // Only two of the four length-prefix bytes: nothing completes, and the
    // framer resumes correctly however late the rest arrives.
    let wire = frame(b"hello");
    let mut framer = Framer::new();
    assert_eq!(framer.feed(&wire[..2]), Vec::<Vec<u8>>::new());
    assert_eq!(framer.feed(&[]), Vec::<Vec<u8>>::new());
    assert_eq!(framer.feed(&wire[2..]), vec![b"hello".to_vec()]);
}

#[test]
fn eof_mid_frame_emits_nothing() {
    // Stream ends with a full prefix but a short body: no spurious message.
    let wire = frame(b"hello");
    let mut framer = Framer::new();
    assert_eq!(framer.feed(&wire[..7]), Vec::<Vec<u8>>::new());
    // Stream ends with fewer than four buffered bytes: the same.
    let mut framer = Framer::new();
    assert_eq!(framer.feed(&wire[..3]), Vec::<Vec<u8>>::new());
}

#[test]
fn split_prefix_and_split_payload_scenario() {
    // The first frame's prefix arrives 2+2, its payload 3+2; the second
    // frame arrives whole.
    let first = frame(b"hello");
    let second = frame(b"world");
    let mut framer = Framer::new();
    let mut got = framer.feed(&first[..2]);
    got.extend(framer.feed(&first[2..4]));
    got.extend(framer.feed(&first[4..7]));
    got.extend(framer.feed(&first[7..]));
    got.extend(framer.feed(&second));
    assert_eq!(got, vec![b"hello".to_vec(), b"world".to_vec()]);
}

#[test]
fn oversized_reports_large_announced_frame() {
    let mut framer = Framer::new();
    assert!(!framer.oversized(1024));
    // A prefix announcing 0x0100_0000 bytes, with no payload yet.
    assert_eq!(framer.feed(&[1, 0, 0, 0]), Vec::<Vec<u8>>::new());
    assert!(framer.oversized(1024));
    assert!(!framer.oversized(0x0100_0000));
    // A small frame never trips the bound once it is complete.
    let mut framer = Framer::new();
    framer.feed(&frame(b"hello"));
    assert!(!framer.oversized(1024));
}

#[test]
fn malformed_payload_does_not_corrupt_framing() {
    // A payload that is not valid UTF-8 passes through as opaque bytes and
    // the next frame still decodes.
    let bad = vec![0xff, 0xfe, 0x80];
    let mut wire = frame(&bad);
    wire.extend(frame(b"ok"));
    let mut framer = Framer::new();
    let msgs = framer.feed(&wire);
    assert_eq!(msgs, vec![bad, b"ok".to_vec()]);
}
