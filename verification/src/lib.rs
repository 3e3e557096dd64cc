//! Status-push message library.
//!
//! Defines the tagged outbound message envelope used on the wire, a verified
//! encoder and decoder for its textual frame format, and the linear state
//! machine that drives the fixed sequence of progress updates.

pub mod codec;
pub mod emitter;
pub mod msg_out;

pub use codec::decode_msg;
pub use codec::encode_msg;
pub use emitter::EmitterState;
pub use emitter::advance;
pub use emitter::emit_sequence;
pub use emitter::emitter_start;
pub use emitter::pending_frame;
pub use emitter::status_at;
pub use msg_out::DecodeError;
pub use msg_out::MsgOut;
pub use msg_out::MsgOutEchoData;
pub use msg_out::MsgOutSpec;
pub use msg_out::ProcessUpdate;
