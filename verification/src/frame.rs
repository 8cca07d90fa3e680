//! The data types a decode produces: the frame kinds, the decoded frame, and
//! the classified failures.

use vstd::prelude::*;

verus! {

/// Why a decode did not produce a frame.
///
/// `Unfinished` is not a protocol violation: it tells the caller to keep the
/// buffer and retry once more bytes have arrived. The other variants mean the
/// byte stream has broken the framing rules and the caller should treat the
/// connection as failed.
#[derive(Clone, Copy, Debug, PartialEq, Eq, Structural)]
pub enum ParseError {
    /// Too few bytes buffered to determine or complete this frame.
    Unfinished,
    /// The 4-bit opcode field holds a value the protocol does not define.
    ReservedOpCode,
    /// A reserved extension bit (bits 6-4 of the first byte) is set.
    ReservedBit,
}

/// The closed set of frame kinds, the low 4 bits of the first header byte.
///
/// Any nibble outside this set is a parse failure, never a fallback value.
#[derive(Clone, Copy, Debug, PartialEq, Eq, Structural)]
pub enum OpCode {
    Continuation,
    Text,
    Binary,
    Close,
    Ping,
    Pong,
}

/// One decoded frame. Ownership transfers fully to the caller; the decoder
/// keeps no state across calls.
#[derive(Debug)]
pub struct Frame {
    /// True if this frame completes a (possibly fragmented) message.
    pub is_last_frag: bool,
    /// The frame's kind.
    pub op_code: OpCode,
    /// Present iff the frame declared itself masked; the 4 raw mask bytes
    /// packed big-endian. Unmasking the payload is the caller's concern.
    pub masking_key: Option<u32>,
    /// The payload region exactly as it appeared on the wire, still masked.
    pub payload: Vec<u8>,
}

/// Mathematical model of a [`Frame`]: the payload as a sequence.
#[verifier::ext_equal]
pub ghost struct FrameModel {
    pub is_last_frag: bool,
    pub op_code: OpCode,
    pub masking_key: Option<u32>,
    pub payload: Seq<u8>,
}

impl View for Frame {
    type V = FrameModel;

    open spec fn view(&self) -> FrameModel {
        FrameModel {
            is_last_frag: self.is_last_frag,
            op_code: self.op_code,
            masking_key: self.masking_key,
            payload: self.payload@,
        }
    }
}

} // verus!
