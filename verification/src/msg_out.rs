//! The outbound message envelope: a tagged union giving the shape of every
//! server-to-client message.

use vstd::prelude::*;

verus! {

/// Payload of the `process_update` variant: a human-readable description of a
/// completed step.
#[derive(Debug, Clone, PartialEq, Eq)]
pub struct ProcessUpdate {
    pub update: String,
}

/// Payload of the `echo` variant. Its shape is owned by the component that
/// handles the echo path, so it is carried here as the verbatim wire text of
/// the payload value.
#[derive(Debug, Clone, PartialEq, Eq)]
pub struct MsgOutEchoData {
    pub raw: String,
}

/// The tagged union of all outbound messages. On the wire each value is a
/// flat two-field structure: an `event` field naming the variant and a `data`
/// field holding the variant's payload.
#[derive(Debug, Clone, PartialEq, Eq)]
pub enum MsgOut {
    Echo(MsgOutEchoData),
    ProcessUpdate(ProcessUpdate),
}

/// Mathematical model of a [`MsgOut`] value: each payload is seen as its
/// sequence of characters.
pub enum MsgOutSpec {
    Echo { raw: Seq<char> },
    ProcessUpdate { update: Seq<char> },
}

impl View for ProcessUpdate {
    type V = Seq<char>;

    open spec fn view(&self) -> Seq<char> {
        self.update@
    }
}

impl View for MsgOutEchoData {
    type V = Seq<char>;

    open spec fn view(&self) -> Seq<char> {
        self.raw@
    }
}

impl View for MsgOut {
    type V = MsgOutSpec;

    open spec fn view(&self) -> MsgOutSpec {
        match self {
            MsgOut::Echo(e) => MsgOutSpec::Echo { raw: e.raw@ },
            MsgOut::ProcessUpdate(p) => MsgOutSpec::ProcessUpdate { update: p.update@ },
        }
    }
}

/// Why a wire frame failed to decode.
#[derive(Debug, Clone, Copy, PartialEq, Eq, Structural)]
pub enum DecodeError {
    /// The frame is not a two-field envelope of the agreed shape.
    MalformedEnvelope,
    /// The envelope is well formed but its `event` value names no known
    /// variant.
    UnknownEvent,
    /// The `event` value is recognized but the `data` payload does not have
    /// the shape that variant requires.
    MalformedPayload,
}

} // verus!
