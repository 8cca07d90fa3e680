//! The frame decoder: a pure, stateless function from a byte slice to either
//! one complete frame plus the count of bytes it consumed, a request for more
//! bytes, or a classified framing violation.
//!
//! [`spec_decode`] states the wire format once, at the specification level;
//! [`parse_frame`] is the executable decoder, proved to agree with it on
//! every input.

use vstd::prelude::*;

use crate::bytes::be_value;
use crate::bytes::lemma_be_value_bound;
use crate::bytes::pow256;
use crate::bytes::read_be;
use crate::frame::Frame;
use crate::frame::FrameModel;
use crate::frame::OpCode;
use crate::frame::ParseError;
use vstd::slice::slice_subrange;
use vstd::slice::slice_to_vec;

verus! {

/// Bit 7 of the first header byte: FIN, set when this frame completes a
/// message.
pub open spec fn spec_fin(b0: u8) -> bool {
    b0 & 0x80 != 0
}

/// Bits 6-4 of the first header byte are reserved for extensions and must be
/// zero.
pub open spec fn reserved_bits_set(b0: u8) -> bool {
    b0 & 0x70 != 0
}

/// Bits 3-0 of the first header byte: the opcode nibble.
pub open spec fn opcode_nibble(b0: u8) -> u8 {
    b0 & 0x0f
}

/// The fixed opcode table. A nibble outside the table has no `OpCode` at all:
/// an unrecognized value is a parse failure, never a fallback.
pub open spec fn spec_opcode(nibble: u8) -> Option<OpCode> {
    if nibble == 0x0 {
        Some(OpCode::Continuation)
    } else if nibble == 0x1 {
        Some(OpCode::Text)
    } else if nibble == 0x2 {
        Some(OpCode::Binary)
    } else if nibble == 0x8 {
        Some(OpCode::Close)
    } else if nibble == 0x9 {
        Some(OpCode::Ping)
    } else if nibble == 0xA {
        Some(OpCode::Pong)
    } else {
        None
    }
}

/// Bit 7 of the second header byte: the MASK flag.
pub open spec fn spec_masked(b1: u8) -> bool {
    b1 & 0x80 != 0
}

/// Bits 6-0 of the second header byte: the base length field.
pub open spec fn len_field(b1: u8) -> u8 {
    b1 & 0x7f
}

/// How many extended-length bytes follow the two fixed header bytes: 2 when
/// the base length field says 126, 8 when it says 127, none otherwise.
pub open spec fn ext_len_bytes(len: u8) -> nat {
    if len == 126 {
        2
    } else if len == 127 {
        8
    } else {
        0
    }
}

/// How many masking-key bytes the header declares: 4 when masked, else 0.
pub open spec fn mask_len_bytes(b1: u8) -> nat {
    if spec_masked(b1) {
        4
    } else {
        0
    }
}

/// The payload length the header declares. Meaningful once the buffer holds
/// the two fixed bytes and the extended-length bytes, if any.
pub open spec fn spec_payload_len(bytes: Seq<u8>) -> nat
    recommends
        2 + ext_len_bytes(len_field(bytes[1])) <= bytes.len(),
{
    let len = len_field(bytes[1]);
    if len == 126 {
        be_value(bytes.subrange(2, 4))
    } else if len == 127 {
        be_value(bytes.subrange(2, 10))
    } else {
        len as nat
    }
}

/// Offset of the payload: the two fixed bytes, the extended-length bytes, and
/// the masking key if one is declared.
pub open spec fn header_len(bytes: Seq<u8>) -> nat
    recommends
        bytes.len() >= 2,
{
    2 + ext_len_bytes(len_field(bytes[1])) + mask_len_bytes(bytes[1])
}

/// What decoding a buffer yields: the wire format, stated once.
///
/// In order: at least two bytes must be present; the reserved bits of byte 0
/// must be clear; the opcode nibble must be in the table; the extended-length
/// bytes, the masking key, and the full payload must each be present. The
/// frame then consists of the first `header_len + payload_len` bytes, and
/// bytes beyond it are not examined.
pub open spec fn spec_decode(bytes: Seq<u8>) -> Result<(nat, FrameModel), ParseError> {
    if bytes.len() < 2 {
        Err(ParseError::Unfinished)
    } else if reserved_bits_set(bytes[0]) {
        Err(ParseError::ReservedBit)
    } else if spec_opcode(opcode_nibble(bytes[0])) is None {
        Err(ParseError::ReservedOpCode)
    } else {
        let len = len_field(bytes[1]);
        if bytes.len() < 2 + ext_len_bytes(len) {
            Err(ParseError::Unfinished)
        } else {
            let mask_offset = 2 + ext_len_bytes(len);
            let payload_offset = header_len(bytes);
            let payload_len = spec_payload_len(bytes);
            if bytes.len() < payload_offset {
                Err(ParseError::Unfinished)
            } else if bytes.len() < payload_offset + payload_len {
                Err(ParseError::Unfinished)
            } else {
                Ok(
                    (
                        payload_offset + payload_len,
                        FrameModel {
                            is_last_frag: spec_fin(bytes[0]),
                            op_code: spec_opcode(opcode_nibble(bytes[0]))->Some_0,
                            masking_key: if spec_masked(bytes[1]) {
                                Some(
                                    be_value(
                                        bytes.subrange(mask_offset as int, mask_offset as int + 4),
                                    ) as u32,
                                )
                            } else {
                                None
                            },
                            payload: bytes.subrange(
                                payload_offset as int,
                                (payload_offset + payload_len) as int,
                            ),
                        },
                    ),
                )
            }
        }
    }
}

/// Law: once both fixed header bytes are present, a first byte with any of
/// the reserved bits 6-4 set is rejected as `ReservedBit`, whatever its
/// opcode nibble holds. (With fewer than two bytes the decoder cannot yet
/// commit and answers `Unfinished` instead.)
pub proof fn lemma_reserved_bit_rejected(bytes: Seq<u8>)
    requires
        bytes.len() >= 2,
        reserved_bits_set(bytes[0]),
    ensures
        spec_decode(bytes) == Err::<(nat, FrameModel), ParseError>(ParseError::ReservedBit),
{
}

/// Law: once both fixed header bytes are present and the reserved bits are
/// clear, an opcode nibble outside the table is rejected as
/// `ReservedOpCode`. (A set reserved bit takes precedence: the decoder
/// checks byte 0's reserved bits before its opcode nibble.)
pub proof fn lemma_reserved_opcode_rejected(bytes: Seq<u8>)
    requires
        bytes.len() >= 2,
        !reserved_bits_set(bytes[0]),
        spec_opcode(opcode_nibble(bytes[0])) is None,
    ensures
        spec_decode(bytes) == Err::<(nat, FrameModel), ParseError>(ParseError::ReservedOpCode),
{
}

/// Law: every strict prefix of a decodable frame's bytes answers
/// `Unfinished` — never a data-based error. A truncated frame only ever asks
/// for more bytes.
pub proof fn lemma_prefix_unfinished(bytes: Seq<u8>, k: int)
    requires
        spec_decode(bytes) is Ok,
        0 <= k < spec_decode(bytes)->Ok_0.0,
    ensures
        spec_decode(bytes.take(k)) == Err::<(nat, FrameModel), ParseError>(ParseError::Unfinished),
{
    let prefix = bytes.take(k);
    let consumed = spec_decode(bytes)->Ok_0.0;
    lemma_decode_ok_shape(bytes);
    if k >= 2 {
        assert(prefix[0] == bytes[0]);
        assert(prefix[1] == bytes[1]);
        let len = len_field(bytes[1]);
        if prefix.len() >= 2 + ext_len_bytes(len) {
            if len == 126 {
                assert(prefix.subrange(2, 4) =~= bytes.subrange(2, 4));
            } else if len == 127 {
                assert(prefix.subrange(2, 10) =~= bytes.subrange(2, 10));
            }
            assert(spec_payload_len(prefix) == spec_payload_len(bytes));
        }
    }
}

/// Law: bytes beyond the decoded frame are not examined — appending anything
/// to a buffer that already decodes leaves the result unchanged.
pub proof fn lemma_trailing_bytes_ignored(bytes: Seq<u8>, tail: Seq<u8>)
    requires
        spec_decode(bytes) is Ok,
    ensures
        spec_decode(bytes + tail) == spec_decode(bytes),
{
    let whole = bytes + tail;
    lemma_decode_ok_shape(bytes);
    assert(whole[0] == bytes[0]);
    assert(whole[1] == bytes[1]);
    let len = len_field(bytes[1]);
    if len == 126 {
        assert(whole.subrange(2, 4) =~= bytes.subrange(2, 4));
    } else if len == 127 {
        assert(whole.subrange(2, 10) =~= bytes.subrange(2, 10));
    }
    assert(spec_payload_len(whole) == spec_payload_len(bytes));
    let payload_offset = header_len(bytes);
    let payload_len = spec_payload_len(bytes);
    assert(whole.subrange(payload_offset as int, (payload_offset + payload_len) as int) =~= bytes
        .subrange(payload_offset as int, (payload_offset + payload_len) as int));
    if spec_masked(bytes[1]) {
        let mask_offset = 2 + ext_len_bytes(len);
        assert(whole.subrange(mask_offset as int, mask_offset as int + 4) =~= bytes.subrange(
            mask_offset as int,
            mask_offset as int + 4,
        ));
    }
}

/// Law: a successful decode consumes no more than the buffer holds, the
/// payload is exactly the declared region of the buffer — no truncation, no
/// over-read — and its length is exactly the length the header declared.
pub proof fn lemma_decode_ok_shape(bytes: Seq<u8>)
    requires
        spec_decode(bytes) is Ok,
    ensures
        ({
            let (consumed, frame) = spec_decode(bytes)->Ok_0;
            &&& bytes.len() >= 2
            &&& consumed <= bytes.len()
            &&& consumed == header_len(bytes) + spec_payload_len(bytes)
            &&& frame.payload == bytes.subrange(header_len(bytes) as int, consumed as int)
            &&& frame.payload.len() == spec_payload_len(bytes)
            &&& frame.masking_key is Some <==> spec_masked(bytes[1])
        }),
{
}

/// Decode one frame from the front of `bytes`.
///
/// `bytes` is all data received so far and not yet consumed; it may be empty,
/// hold part of a frame, one frame, or a frame plus trailing bytes. On
/// success the first `consumed` bytes are exactly one complete frame and the
/// rest is untouched; the caller resubmits it on the next call. `Unfinished`
/// asks the caller to retry with more bytes; the other errors classify a
/// framing violation.
pub fn parse_frame(bytes: &[u8]) -> (r: Result<(usize, Frame), ParseError>)
    ensures
        r matches Ok((consumed, frame)) ==> spec_decode(bytes@) == Ok::<
            (nat, FrameModel),
            ParseError,
        >((consumed as nat, frame@)),
        r matches Ok((consumed, frame)) ==> consumed <= bytes@.len(),
        r matches Err(e) ==> spec_decode(bytes@) == Err::<(nat, FrameModel), ParseError>(e),
{
    if bytes.len() < 2 {
        return Err(ParseError::Unfinished);
    }
    let byte0 = bytes[0];
    let byte1 = bytes[1];
    let fin = byte0 & 0x80 != 0;
    if byte0 & 0x70 != 0 {
        return Err(ParseError::ReservedBit);
    }
    let op = match byte0 & 0x0f {
        0x0 => OpCode::Continuation,
        0x1 => OpCode::Text,
        0x2 => OpCode::Binary,
        0x8 => OpCode::Close,
        0x9 => OpCode::Ping,
        0xA => OpCode::Pong,
        _ => {
            return Err(ParseError::ReservedOpCode);
        },
    };
    let is_masked = byte1 & 0x80 != 0;
    let len = byte1 & 0x7f;
    let ext: usize = if len == 126 {
        2
    } else if len == 127 {
        8
    } else {
        0
    };
    let mask_offset: usize = 2 + ext;
    if bytes.len() < mask_offset {
        return Err(ParseError::Unfinished);
    }
    let payload_len: u64 = if len == 126 {
        read_be(bytes, 2, 2)
    } else if len == 127 {
        read_be(bytes, 2, 8)
    } else {
        len as u64
    };
    let payload_offset: usize = if is_masked {
        mask_offset + 4
    } else {
        mask_offset
    };
    let masking_key: Option<u32> = if is_masked {
        if bytes.len() < payload_offset {
            return Err(ParseError::Unfinished);
        }
        let key = read_be(bytes, mask_offset, 4);
        proof {
            lemma_be_value_bound(bytes@.subrange(mask_offset as int, mask_offset + 4));
            assert(pow256(4) == 0x1_0000_0000) by {
                reveal_with_fuel(pow256, 5);
            }
        }
        Some(key as u32)
    } else {
        None
    };
    let remaining: u64 = (bytes.len() - payload_offset) as u64;
    if payload_len > remaining {
        return Err(ParseError::Unfinished);
    }
    let frame_end: usize = payload_offset + (payload_len as usize);
    let payload = slice_to_vec(slice_subrange(bytes, payload_offset, frame_end));
    Ok(
        (
            frame_end,
            Frame { is_last_frag: fin, op_code: op, masking_key, payload },
        ),
    )
}

} // verus!
