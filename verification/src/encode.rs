//! The wire form of a frame, at the specification level, and the laws tying
//! it to the decoder: a frame's encoding decodes back to the very same frame,
//! and masking costs exactly the four key bytes.
//!
//! Producing outbound frames is a caller's concern; the encoding is stated
//! here only so that round-trip behaviour can be proved of the decoder.

use vstd::prelude::*;

use crate::bytes::be_bytes;
use crate::bytes::be_value;
use crate::bytes::lemma_be_bytes_len;
use crate::bytes::lemma_be_value_of_be_bytes;
use crate::bytes::pow256;
use crate::decode::ext_len_bytes;
use crate::decode::header_len;
use crate::decode::len_field;
use crate::decode::mask_len_bytes;
use crate::decode::opcode_nibble;
use crate::decode::reserved_bits_set;
use crate::decode::spec_decode;
use crate::decode::spec_fin;
use crate::decode::spec_masked;
use crate::decode::spec_opcode;
use crate::decode::spec_payload_len;
use crate::frame::FrameModel;
use crate::frame::OpCode;
use crate::frame::ParseError;

verus! {

/// The nibble the opcode table assigns to each frame kind.
pub open spec fn opcode_nibble_of(op: OpCode) -> u8 {
    match op {
        OpCode::Continuation => 0x0,
        OpCode::Text => 0x1,
        OpCode::Binary => 0x2,
        OpCode::Close => 0x8,
        OpCode::Ping => 0x9,
        OpCode::Pong => 0xA,
    }
}

/// A frame can be put on the wire when its payload length fits the 64-bit
/// extended length field.
pub open spec fn encodable(f: FrameModel) -> bool {
    f.payload.len() < pow256(8)
}

/// Bit 7 of the first header byte.
pub open spec fn fin_bit(f: FrameModel) -> u8 {
    if f.is_last_frag {
        0x80
    } else {
        0
    }
}

/// First header byte: FIN bit and opcode nibble; reserved bits clear.
pub open spec fn spec_header0(f: FrameModel) -> u8 {
    fin_bit(f) | opcode_nibble_of(f.op_code)
}

/// Bit 7 of the second header byte.
pub open spec fn mask_bit(f: FrameModel) -> u8 {
    if f.masking_key is Some {
        0x80
    } else {
        0
    }
}

/// The base length field: the payload length itself up to 125, else the
/// marker announcing a 2- or 8-byte extended length.
pub open spec fn base_len_field(plen: nat) -> u8 {
    if plen <= 125 {
        plen as u8
    } else if plen < 65536 {
        126
    } else {
        127
    }
}

/// Second header byte: MASK flag and base length field.
pub open spec fn spec_header1(f: FrameModel) -> u8 {
    mask_bit(f) | base_len_field(f.payload.len())
}

/// The extended-length bytes, if the base length field announces any.
pub open spec fn spec_ext_bytes(f: FrameModel) -> Seq<u8> {
    let plen = f.payload.len();
    if plen <= 125 {
        Seq::empty()
    } else if plen < 65536 {
        be_bytes(plen, 2)
    } else {
        be_bytes(plen, 8)
    }
}

/// The four masking-key bytes, big-endian, if the frame is masked.
pub open spec fn spec_mask_bytes(f: FrameModel) -> Seq<u8> {
    match f.masking_key {
        Some(key) => be_bytes(key as nat, 4),
        None => Seq::empty(),
    }
}

/// The wire encoding of a frame: the two fixed header bytes, the
/// extended-length bytes, the masking key, then the payload unchanged.
pub open spec fn spec_encode(f: FrameModel) -> Seq<u8> {
    seq![spec_header0(f), spec_header1(f)] + spec_ext_bytes(f) + spec_mask_bytes(f) + f.payload
}

/// Law: decoding a frame's encoding consumes the whole encoding and
/// reproduces the frame — FIN flag, opcode, mask presence and key, and
/// payload bytes all unchanged.
pub proof fn lemma_encode_decode(f: FrameModel)
    requires
        encodable(f),
    ensures
        spec_decode(spec_encode(f)) == Ok::<(nat, FrameModel), ParseError>(
            (spec_encode(f).len(), f),
        ),
{
    let enc = spec_encode(f);
    let plen = f.payload.len();
    let nib = opcode_nibble_of(f.op_code);
    let fb = fin_bit(f);
    let mb = mask_bit(f);
    let lf = base_len_field(plen);
    let ext = spec_ext_bytes(f);
    let mask = spec_mask_bytes(f);

    assert(pow256(2) == 65536 && pow256(4) == 0x1_0000_0000) by {
        reveal_with_fuel(pow256, 5);
    }
    if plen <= 125 {
    } else if plen < 65536 {
        lemma_be_bytes_len(plen, 2);
    } else {
        lemma_be_bytes_len(plen, 8);
    }
    match f.masking_key {
        Some(key) => lemma_be_bytes_len(key as nat, 4),
        None => (),
    }
    let ext_n = ext.len();
    let mask_n = mask.len();
    assert(enc.len() == 2 + ext_n + mask_n + plen);
    assert(enc[0] == spec_header0(f));
    assert(enc[1] == spec_header1(f));

    assert(nib == 0 || nib == 1 || nib == 2 || nib == 8 || nib == 9 || nib == 10);
    assert((fb | nib) & 0x70 == 0 && (fb | nib) & 0x0f == nib && (((fb | nib) & 0x80 != 0)
        <==> fb == 0x80)) by (bit_vector)
        requires
            fb == 0 || fb == 0x80,
            nib == 0 || nib == 1 || nib == 2 || nib == 8 || nib == 9 || nib == 10,
    ;
    assert(!reserved_bits_set(enc[0]));
    assert(opcode_nibble(enc[0]) == nib);
    assert(spec_opcode(nib) == Some(f.op_code));
    assert(spec_fin(enc[0]) == f.is_last_frag);

    assert((mb | lf) & 0x7f == lf && (((mb | lf) & 0x80 != 0) <==> mb == 0x80)) by (bit_vector)
        requires
            mb == 0 || mb == 0x80,
            lf < 128,
    ;
    assert(len_field(enc[1]) == lf);
    assert(spec_masked(enc[1]) <==> f.masking_key is Some);
    assert(mask_len_bytes(enc[1]) == mask_n);

    if plen <= 125 {
        assert(ext_len_bytes(lf) == 0);
        assert(spec_payload_len(enc) == plen);
    } else if plen < 65536 {
        assert(enc.subrange(2, 4) =~= be_bytes(plen, 2));
        lemma_be_value_of_be_bytes(plen, 2);
        assert(spec_payload_len(enc) == plen);
    } else {
        assert(enc.subrange(2, 10) =~= be_bytes(plen, 8));
        lemma_be_value_of_be_bytes(plen, 8);
        assert(spec_payload_len(enc) == plen);
    }
    assert(ext_len_bytes(lf) == ext_n);

    let mask_offset = 2 + ext_n;
    let payload_offset = mask_offset + mask_n;
    assert(header_len(enc) == payload_offset);

    let decoded_key: Option<u32> = if spec_masked(enc[1]) {
        Some(be_value(enc.subrange(mask_offset as int, mask_offset as int + 4)) as u32)
    } else {
        None
    };
    match f.masking_key {
        Some(key) => {
            assert(enc.subrange(mask_offset as int, mask_offset as int + 4) =~= be_bytes(
                key as nat,
                4,
            ));
            lemma_be_value_of_be_bytes(key as nat, 4);
            assert(decoded_key == Some(key));
        },
        None => {
            assert(decoded_key is None);
        },
    }

    assert(enc.subrange(payload_offset as int, (payload_offset + plen) as int) =~= f.payload);

    let decoded = spec_decode(enc)->Ok_0.1;
    assert(decoded =~= f);
    assert(spec_decode(enc) == Ok::<(nat, FrameModel), ParseError>((enc.len(), f)));
}

/// Law: a buffer holding exactly one encoded frame decodes with `consumed`
/// equal to the frame's full byte length and a payload of exactly the
/// original payload's length.
pub proof fn lemma_one_frame_consumed_exactly(f: FrameModel)
    requires
        encodable(f),
    ensures
        spec_decode(spec_encode(f)) is Ok,
        spec_decode(spec_encode(f))->Ok_0.0 == spec_encode(f).len(),
        spec_decode(spec_encode(f))->Ok_0.1.payload.len() == f.payload.len(),
{
    lemma_encode_decode(f);
}

/// Law: a masked frame and an unmasked frame with payloads of the same
/// length decode with `consumed` differing by exactly the four mask-key
/// bytes, and with `masking_key` present and absent accordingly.
pub proof fn lemma_mask_overhead(masked: FrameModel, unmasked: FrameModel)
    requires
        encodable(masked),
        masked.masking_key is Some,
        unmasked.masking_key is None,
        masked.payload.len() == unmasked.payload.len(),
    ensures
        spec_decode(spec_encode(masked)) is Ok,
        spec_decode(spec_encode(unmasked)) is Ok,
        spec_decode(spec_encode(masked))->Ok_0.0 == spec_decode(spec_encode(unmasked))->Ok_0.0
            + 4,
        spec_decode(spec_encode(masked))->Ok_0.1.masking_key == masked.masking_key,
        spec_decode(spec_encode(unmasked))->Ok_0.1.masking_key is None,
{
    lemma_encode_decode(masked);
    lemma_encode_decode(unmasked);
    let key = masked.masking_key->Some_0;
    lemma_be_bytes_len(key as nat, 4);
    assert(spec_ext_bytes(masked) == spec_ext_bytes(unmasked));
    if masked.payload.len() <= 125 {
    } else if masked.payload.len() < 65536 {
        lemma_be_bytes_len(masked.payload.len(), 2);
    } else {
        lemma_be_bytes_len(masked.payload.len(), 8);
    }
    assert(spec_encode(masked).len() == spec_encode(unmasked).len() + 4);
}

} // verus!
