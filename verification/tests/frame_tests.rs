use wsrelay::frame::{decode_frame, encode_frame, FrameProtocolError, Opcode};

fn masked(first: u8, payload: &[u8], key: [u8; 4]) -> Vec<u8> {
    let mut out = vec![first];
    let n = payload.len();
    if n <= 125 {
        out.push(0x80 | n as u8);
    } else if n <= 65535 {
        out.push(0x80 | 126);
        out.push((n >> 8) as u8);
        out.push(n as u8);
    } else {
        out.push(0x80 | 127);
        for shift in (0..8).rev() {
            out.push(((n as u64) >> (8 * shift)) as u8);
        }
    }
    out.extend_from_slice(&key);
    for (i, b) in payload.iter().enumerate() {
        out.push(b ^ key[i % 4]);
    }
    out
}

fn round_trip(opcode: Opcode, len: usize) {
    let payload: Vec<u8> = (0..len).map(|i| (i * 7 + 3) as u8).collect();
    let bytes = encode_frame(opcode, &payload);
    let (frame, used) = decode_frame(&bytes).unwrap().unwrap();
    assert_eq!(frame.opcode, opcode);
    assert_eq!(frame.payload, payload);
    assert_eq!(used, bytes.len());
}

#[test]
fn encode_short_frame() {
    assert_eq!(encode_frame(Opcode::Text, b"Hello"), vec![0x81, 5, b'H', b'e', b'l', b'l', b'o']);
    assert_eq!(encode_frame(Opcode::Binary, b""), vec![0x82, 0]);
    assert_eq!(encode_frame(Opcode::Close, b""), vec![0x88, 0]);
    assert_eq!(encode_frame(Opcode::Ping, b"a"), vec![0x89, 1, b'a']);
    assert_eq!(encode_frame(Opcode::Pong, b"a"), vec![0x8a, 1, b'a']);
    assert_eq!(encode_frame(Opcode::Continuation, b""), vec![0x80, 0]);
}

#[test]
fn encode_length_forms() {
    let p125 = vec![1u8; 125];
    let out = encode_frame(Opcode::Binary, &p125);
    assert_eq!(&out[..2], &[0x82, 125]);
    assert_eq!(out.len(), 127);

    let p126 = vec![1u8; 126];
    let out = encode_frame(Opcode::Binary, &p126);
    assert_eq!(&out[..4], &[0x82, 126, 0, 126]);
    assert_eq!(out.len(), 130);

    let p300 = vec![1u8; 300];
    let out = encode_frame(Opcode::Binary, &p300);
    assert_eq!(&out[..4], &[0x82, 126, 1, 44]);

    let p65535 = vec![1u8; 65535];
    let out = encode_frame(Opcode::Binary, &p65535);
    assert_eq!(&out[..4], &[0x82, 126, 255, 255]);
    assert_eq!(out.len(), 65539);

    let p65536 = vec![1u8; 65536];
    let out = encode_frame(Opcode::Binary, &p65536);
    assert_eq!(&out[..10], &[0x82, 127, 0, 0, 0, 0, 0, 1, 0, 0]);
    assert_eq!(out.len(), 65546);

    let p70000 = vec![1u8; 70000];
    let out = encode_frame(Opcode::Binary, &p70000);
    assert_eq!(&out[..10], &[0x82, 127, 0, 0, 0, 0, 0, 1, 0x11, 0x70]);
}

#[test]
fn round_trip_short_payloads() {
    round_trip(Opcode::Text, 0);
    round_trip(Opcode::Binary, 1);
    round_trip(Opcode::Ping, 125);
    round_trip(Opcode::Pong, 17);
    round_trip(Opcode::Close, 2);
}

#[test]
fn round_trip_medium_payloads() {
    round_trip(Opcode::Binary, 126);
    round_trip(Opcode::Text, 1000);
    round_trip(Opcode::Binary, 65535);
}

#[test]
fn round_trip_long_payloads() {
    round_trip(Opcode::Binary, 65536);
    round_trip(Opcode::Text, 100_000);
}

#[test]
fn continuation_does_not_round_trip() {
    let bytes = encode_frame(Opcode::Continuation, b"x");
    assert_eq!(decode_frame(&bytes).err(), Some(FrameProtocolError::Fragmented));
}

#[test]
fn decode_masked_client_frame() {
    // The masked "Hello" of RFC 6455, section 5.7.
    let bytes = [0x81, 0x85, 0x37, 0xfa, 0x21, 0x3d, 0x7f, 0x9f, 0x4d, 0x51, 0x58];
    let (frame, used) = decode_frame(&bytes).unwrap().unwrap();
    assert_eq!(frame.opcode, Opcode::Text);
    assert_eq!(frame.payload, b"Hello".to_vec());
    assert_eq!(used, 11);
}

#[test]
fn decode_unmasked_frame() {
    let bytes = [0x81, 0x05, 0x48, 0x65, 0x6c, 0x6c, 0x6f];
    let (frame, used) = decode_frame(&bytes).unwrap().unwrap();
    assert_eq!(frame.opcode, Opcode::Text);
    assert_eq!(frame.payload, b"Hello".to_vec());
    assert_eq!(used, 7);
}

#[test]
fn decode_masked_extended_lengths() {
    let payload: Vec<u8> = (0..300).map(|i| i as u8).collect();
    let bytes = masked(0x82, &payload, [1, 2, 3, 4]);
    let (frame, used) = decode_frame(&bytes).unwrap().unwrap();
    assert_eq!(frame.opcode, Opcode::Binary);
    assert_eq!(frame.payload, payload);
    assert_eq!(used, 2 + 2 + 4 + 300);

    let payload: Vec<u8> = (0..70000).map(|i| (i % 251) as u8).collect();
    let bytes = masked(0x82, &payload, [0xde, 0xad, 0xbe, 0xef]);
    let (frame, used) = decode_frame(&bytes).unwrap().unwrap();
    assert_eq!(frame.payload, payload);
    assert_eq!(used, 2 + 8 + 4 + 70000);
}

#[test]
fn decode_consumes_one_frame_only() {
    let mut bytes = masked(0x89, b"ab", [9, 9, 9, 9]);
    let first_len = bytes.len();
    bytes.extend_from_slice(&masked(0x82, b"rest", [1, 1, 1, 1]));
    let (frame, used) = decode_frame(&bytes).unwrap().unwrap();
    assert_eq!(frame.opcode, Opcode::Ping);
    assert_eq!(frame.payload, b"ab".to_vec());
    assert_eq!(used, first_len);
    let (frame, used) = decode_frame(&bytes[first_len..]).unwrap().unwrap();
    assert_eq!(frame.opcode, Opcode::Binary);
    assert_eq!(frame.payload, b"rest".to_vec());
    assert_eq!(used, bytes.len() - first_len);
}

#[test]
fn decode_asks_for_more_data() {
    let full = masked(0x82, b"payload", [5, 6, 7, 8]);
    for cut in 0..full.len() {
        assert!(decode_frame(&full[..cut]).unwrap().is_none(), "cut at {}", cut);
    }
    assert!(decode_frame(&full).unwrap().is_some());

    let payload = vec![0u8; 200];
    let full = masked(0x82, &payload, [5, 6, 7, 8]);
    assert!(decode_frame(&full[..3]).unwrap().is_none());
    assert!(decode_frame(&full[..7]).unwrap().is_none());
    assert!(decode_frame(&full[..full.len() - 1]).unwrap().is_none());

    // The eight length bytes are not all there yet.
    assert!(decode_frame(&[0x82, 0x80 | 127, 0, 0, 0]).unwrap().is_none());
}

#[test]
fn decode_rejects_reserved_opcodes() {
    for code in [3u8, 4, 5, 6, 7, 11, 12, 13, 14, 15] {
        assert_eq!(
            decode_frame(&[0x80 | code, 0x80, 0, 0, 0, 0]).err(),
            Some(FrameProtocolError::BadOpcode)
        );
    }
}

#[test]
fn decode_rejects_fragments() {
    // FIN clear on a text frame.
    assert_eq!(
        decode_frame(&[0x01, 0x80, 0, 0, 0, 0]).err(),
        Some(FrameProtocolError::Fragmented)
    );
    // A continuation frame, final or not.
    assert_eq!(
        decode_frame(&[0x80, 0x80, 0, 0, 0, 0]).err(),
        Some(FrameProtocolError::Fragmented)
    );
    assert_eq!(
        decode_frame(&[0x00, 0x80, 0, 0, 0, 0]).err(),
        Some(FrameProtocolError::Fragmented)
    );
}

#[test]
fn decode_rejects_oversized_length() {
    let bytes = [0x82, 0x80 | 127, 0x80, 0, 0, 0, 0, 0, 0, 0];
    assert_eq!(decode_frame(&bytes).err(), Some(FrameProtocolError::Oversized));
    let bytes = [0x82, 127, 0xff, 0xff, 0xff, 0xff, 0xff, 0xff, 0xff, 0xff];
    assert_eq!(decode_frame(&bytes).err(), Some(FrameProtocolError::Oversized));
}

#[test]
fn decode_large_announced_length_waits() {
    // One gigabyte announced, nothing delivered yet.
    let bytes = [0x82, 0x80 | 127, 0, 0, 0, 0, 0x40, 0, 0, 0, 1, 2, 3, 4];
    assert!(decode_frame(&bytes).unwrap().is_none());
}

#[test]
fn opcode_codes() {
    let all = [
        (Opcode::Continuation, 0u8),
        (Opcode::Text, 1),
        (Opcode::Binary, 2),
        (Opcode::Close, 8),
        (Opcode::Ping, 9),
        (Opcode::Pong, 10),
    ];
    for (op, code) in all {
        assert_eq!(op.code(), code);
        assert_eq!(Opcode::from_code(code), Some(op));
    }
    assert_eq!(Opcode::from_code(3), None);
    assert_eq!(Opcode::from_code(16), None);
}
