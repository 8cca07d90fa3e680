//! Decoder for one frame of a bidirectional text/binary messaging protocol
//! carried over a stream transport.
//!
//! The decoder is a pure, stateless function over a byte slice: it either
//! extracts exactly one complete frame together with the number of bytes it
//! occupied, reports that more bytes are needed, or classifies the input as a
//! framing violation.

pub mod bytes;
pub mod frame;
pub mod decode;
pub mod encode;

pub use decode::parse_frame;
pub use frame::Frame;
pub use frame::FrameModel;
pub use frame::OpCode;
pub use frame::ParseError;
