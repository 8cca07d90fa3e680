use wsframe::parse_frame;
use wsframe::OpCode;
use wsframe::ParseError;

#[test]
fn empty_buffer_is_unfinished() {
    assert_eq!(parse_frame(&[]).unwrap_err(), ParseError::Unfinished);
}

#[test]
fn single_byte_is_unfinished() {
    assert_eq!(parse_frame(&[0x81]).unwrap_err(), ParseError::Unfinished);
}

#[test]
fn hello_text_frame() {
    let bytes = [0x81, 0x05, b'H', b'e', b'l', b'l', b'o'];
    let (consumed, frame) = parse_frame(&bytes).unwrap();
    assert_eq!(consumed, 7);
    assert!(frame.is_last_frag);
    assert_eq!(frame.op_code, OpCode::Text);
    assert_eq!(frame.masking_key, None);
    assert_eq!(frame.payload, b"Hello".to_vec());
}

#[test]
fn empty_payload_frame() {
    let (consumed, frame) = parse_frame(&[0x81, 0x00]).unwrap();
    assert_eq!(consumed, 2);
    assert!(frame.payload.is_empty());
}

#[test]
fn reserved_opcode_nibble_f() {
    assert_eq!(parse_frame(&[0x8F, 0x00]).unwrap_err(), ParseError::ReservedOpCode);
}

#[test]
fn every_undefined_opcode_nibble_is_rejected() {
    for nibble in [0x3u8, 0x4, 0x5, 0x6, 0x7, 0xB, 0xC, 0xD, 0xE, 0xF] {
        let bytes = [0x80 | nibble, 0x00];
        assert_eq!(parse_frame(&bytes).unwrap_err(), ParseError::ReservedOpCode);
    }
}

#[test]
fn opcode_table() {
    let expected = [
        (0x0u8, OpCode::Continuation),
        (0x1, OpCode::Text),
        (0x2, OpCode::Binary),
        (0x8, OpCode::Close),
        (0x9, OpCode::Ping),
        (0xA, OpCode::Pong),
    ];
    for (nibble, op) in expected {
        let (consumed, frame) = parse_frame(&[0x80 | nibble, 0x00]).unwrap();
        assert_eq!(consumed, 2);
        assert_eq!(frame.op_code, op);
    }
}

#[test]
fn each_reserved_bit_is_rejected() {
    for bit in [0x40u8, 0x20, 0x10] {
        let bytes = [0x81 | bit, 0x00];
        assert_eq!(parse_frame(&bytes).unwrap_err(), ParseError::ReservedBit);
    }
}

#[test]
fn reserved_bit_wins_over_bad_opcode() {
    // Bits 6-4 all set and an undefined opcode nibble: the reserved bits are
    // checked first.
    assert_eq!(parse_frame(&[0x77, 0x00]).unwrap_err(), ParseError::ReservedBit);
}

#[test]
fn fin_clear_means_not_last_fragment() {
    let (_, frame) = parse_frame(&[0x01, 0x00]).unwrap();
    assert!(!frame.is_last_frag);
    let (_, frame) = parse_frame(&[0x81, 0x00]).unwrap();
    assert!(frame.is_last_frag);
}

#[test]
fn masked_frame_carries_key_and_raw_payload() {
    let bytes = [0x81, 0x85, 0x11, 0x22, 0x33, 0x44, 0xAA, 0xBB, 0xCC, 0xDD, 0xEE];
    let (consumed, frame) = parse_frame(&bytes).unwrap();
    assert_eq!(consumed, 11);
    assert_eq!(frame.masking_key, Some(0x11223344));
    // The payload is handed over exactly as on the wire, still masked.
    assert_eq!(frame.payload, vec![0xAA, 0xBB, 0xCC, 0xDD, 0xEE]);
}

#[test]
fn masking_costs_exactly_four_bytes() {
    let unmasked = [0x81, 0x03, 1, 2, 3];
    let masked = [0x81, 0x83, 9, 9, 9, 9, 1, 2, 3];
    let (n_unmasked, f_unmasked) = parse_frame(&unmasked).unwrap();
    let (n_masked, f_masked) = parse_frame(&masked).unwrap();
    assert_eq!(n_masked, n_unmasked + 4);
    assert_eq!(f_unmasked.masking_key, None);
    assert_eq!(f_masked.masking_key, Some(0x09090909));
    assert_eq!(f_unmasked.payload, f_masked.payload);
}

fn frame_of_len(len: usize) -> Vec<u8> {
    let mut bytes = vec![0x82u8];
    if len <= 125 {
        bytes.push(len as u8);
    } else if len < 65536 {
        bytes.push(126);
        bytes.extend_from_slice(&[(len >> 8) as u8, len as u8]);
    } else {
        bytes.push(127);
        bytes.extend_from_slice(&(len as u64).to_be_bytes());
    }
    let header = bytes.len();
    bytes.resize(header + len, 0x5A);
    bytes
}

#[test]
fn payload_length_zero() {
    let bytes = frame_of_len(0);
    let (consumed, frame) = parse_frame(&bytes).unwrap();
    assert_eq!(consumed, bytes.len());
    assert_eq!(consumed, 2);
    assert_eq!(frame.payload.len(), 0);
}

#[test]
fn payload_length_125() {
    let bytes = frame_of_len(125);
    let (consumed, frame) = parse_frame(&bytes).unwrap();
    assert_eq!(consumed, bytes.len());
    assert_eq!(consumed, 127);
    assert_eq!(frame.payload.len(), 125);
}

#[test]
fn payload_length_126() {
    let bytes = frame_of_len(126);
    let (consumed, frame) = parse_frame(&bytes).unwrap();
    assert_eq!(consumed, bytes.len());
    assert_eq!(consumed, 130);
    assert_eq!(frame.payload.len(), 126);
}

#[test]
fn payload_length_65535() {
    let bytes = frame_of_len(65535);
    let (consumed, frame) = parse_frame(&bytes).unwrap();
    assert_eq!(consumed, bytes.len());
    assert_eq!(consumed, 65539);
    assert_eq!(frame.payload.len(), 65535);
}

#[test]
fn payload_length_65536() {
    let bytes = frame_of_len(65536);
    let (consumed, frame) = parse_frame(&bytes).unwrap();
    assert_eq!(consumed, bytes.len());
    assert_eq!(consumed, 65546);
    assert_eq!(frame.payload.len(), 65536);
}

#[test]
fn every_strict_prefix_is_unfinished() {
    let mut frames: Vec<Vec<u8>> = vec![
        vec![0x81, 0x05, b'H', b'e', b'l', b'l', b'o'],
        vec![0x81, 0x85, 0x11, 0x22, 0x33, 0x44, 1, 2, 3, 4, 5],
        frame_of_len(126),
        frame_of_len(65536),
    ];
    let masked_long = {
        let mut bytes = vec![0x82u8, 0x80 | 126, 0x01, 0x00, 7, 7, 7, 7];
        bytes.resize(bytes.len() + 256, 0);
        bytes
    };
    frames.push(masked_long);
    for frame in frames {
        assert!(parse_frame(&frame).is_ok());
        for cut in 0..frame.len() {
            assert_eq!(
                parse_frame(&frame[..cut]).unwrap_err(),
                ParseError::Unfinished,
                "prefix of length {cut}"
            );
        }
    }
}

#[test]
fn trailing_bytes_are_left_untouched() {
    let bytes = [0x81, 0x05, b'H', b'e', b'l', b'l', b'o', 0xFF, 0x00, 0x81];
    let (consumed, frame) = parse_frame(&bytes).unwrap();
    assert_eq!(consumed, 7);
    assert_eq!(frame.payload, b"Hello".to_vec());
}

#[test]
fn two_frames_back_to_back() {
    let mut bytes = vec![0x00, 0x02, 0xAB, 0xCD];
    bytes.extend_from_slice(&[0x88, 0x00]);
    let (consumed, first) = parse_frame(&bytes).unwrap();
    assert_eq!(consumed, 4);
    assert_eq!(first.op_code, OpCode::Continuation);
    assert_eq!(first.payload, vec![0xAB, 0xCD]);
    let (consumed2, second) = parse_frame(&bytes[consumed..]).unwrap();
    assert_eq!(consumed2, 2);
    assert_eq!(second.op_code, OpCode::Close);
    assert!(second.payload.is_empty());
}

#[test]
fn non_minimal_length_encoding_is_accepted() {
    // The decoder enforces no minimal-encoding rule: a small payload may
    // still be declared through the 2-byte extended length field.
    let bytes = [0x81, 126, 0x00, 0x05, b'H', b'e', b'l', b'l', b'o'];
    let (consumed, frame) = parse_frame(&bytes).unwrap();
    assert_eq!(consumed, 9);
    assert_eq!(frame.payload, b"Hello".to_vec());
}

#[test]
fn truncated_two_byte_length_is_unfinished() {
    assert_eq!(parse_frame(&[0x81, 126]).unwrap_err(), ParseError::Unfinished);
    assert_eq!(parse_frame(&[0x81, 126, 0x00]).unwrap_err(), ParseError::Unfinished);
}

#[test]
fn truncated_eight_byte_length_is_unfinished() {
    let bytes = [0x81, 127, 0, 0, 0, 0, 0, 0, 0];
    assert_eq!(parse_frame(&bytes).unwrap_err(), ParseError::Unfinished);
}

#[test]
fn truncated_masking_key_is_unfinished() {
    assert_eq!(parse_frame(&[0x81, 0x80]).unwrap_err(), ParseError::Unfinished);
    assert_eq!(parse_frame(&[0x81, 0x85, 0x11, 0x22]).unwrap_err(), ParseError::Unfinished);
}

#[test]
fn missing_payload_bytes_are_unfinished() {
    let bytes = [0x81, 0x05, b'H', b'e'];
    assert_eq!(parse_frame(&bytes).unwrap_err(), ParseError::Unfinished);
}

#[test]
fn enormous_declared_length_is_unfinished() {
    // A header declaring a payload of 2^64 - 1 bytes must resolve to
    // `Unfinished` rather than overflow anywhere.
    let bytes = [0x81, 127, 0xFF, 0xFF, 0xFF, 0xFF, 0xFF, 0xFF, 0xFF, 0xFF];
    assert_eq!(parse_frame(&bytes).unwrap_err(), ParseError::Unfinished);
}
