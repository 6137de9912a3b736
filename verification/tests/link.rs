use archon_node::protocol::{encode_frame, frame_header, payload_length, MAX_FRAME};
use archon_node::transport::{plaintext_chunks, psk_for, raw_frame_header, raw_frame_len, Pending, MAX_PLAINTEXT};
use sha2::{Digest, Sha256};

#[test]
fn psk_hashes_the_labelled_token() {
    let expected: [u8; 32] = Sha256::digest(b"archon-noise:secret").into();
    assert_eq!(psk_for(Some("secret")), expected);
    let open: [u8; 32] = Sha256::digest(b"archon-noise:").into();
    assert_eq!(psk_for(None), open);
    assert_eq!(psk_for(Some("")), open);
    assert_ne!(psk_for(Some("a")), psk_for(Some("b")));
}

#[test]
fn raw_frames_are_big_endian_and_bounded() {
    assert_eq!(raw_frame_header(0x1234).unwrap(), [0x12, 0x34]);
    assert_eq!(raw_frame_header(65535).unwrap(), [0xff, 0xff]);
    assert_eq!(raw_frame_header(65536).unwrap_err(), "handshake message too large");
    for len in [0usize, 1, 255, 256, 4097, 65535] {
        assert_eq!(raw_frame_len(raw_frame_header(len).unwrap()), len);
    }
}

#[test]
fn plaintext_is_cut_into_noise_sized_pieces() {
    assert!(plaintext_chunks(0).is_empty());
    assert_eq!(plaintext_chunks(5), vec![(0, 5)]);
    assert_eq!(plaintext_chunks(MAX_PLAINTEXT), vec![(0, MAX_PLAINTEXT)]);
    assert_eq!(
        plaintext_chunks(2 * MAX_PLAINTEXT + 1),
        vec![(0, MAX_PLAINTEXT), (MAX_PLAINTEXT, 2 * MAX_PLAINTEXT), (2 * MAX_PLAINTEXT, 2 * MAX_PLAINTEXT + 1)]
    );
    assert_eq!(MAX_PLAINTEXT, 65535 - 16);
}

#[test]
fn pending_plaintext_is_read_in_order() {
    let mut pending = Pending::new();
    assert!(pending.is_empty());
    assert!(pending.take(4).is_empty());
    pending.fill(b"hello ");
    pending.fill(b"world");
    assert_eq!(pending.take(3), b"hel".to_vec());
    assert_eq!(pending.take(0), Vec::<u8>::new());
    assert_eq!(pending.take(100), b"lo world".to_vec());
    assert!(pending.is_empty());
}

#[test]
fn frames_carry_a_little_endian_length() {
    assert_eq!(frame_header(0x0102_0304), [4, 3, 2, 1]);
    assert_eq!(encode_frame(b"{}"), vec![2, 0, 0, 0, b'{', b'}']);
    assert_eq!(payload_length([2, 0, 0, 0]), Some(2));
    assert_eq!(payload_length(frame_header(MAX_FRAME)), Some(MAX_FRAME));
    assert_eq!(payload_length(frame_header(MAX_FRAME + 1)), None);
    assert_eq!(payload_length([0xff, 0xff, 0xff, 0xff]), None);
}
