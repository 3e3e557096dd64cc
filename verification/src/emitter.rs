//! The update emitter: the linear state machine that drives the fixed,
//! ordered sequence of progress notifications over an open connection.
//!
//! The library decides; the surrounding runtime performs. [`pending_frame`]
//! names the frame the next step must send, the caller waits its fixed delay,
//! sends the frame, and reports the outcome to [`advance`]. A failed send
//! terminates the remaining sequence at once; nothing is retried, reordered
//! or skipped.

use vstd::prelude::*;
use crate::codec::encode_msg;
use crate::codec::frame_for;
use crate::msg_out::MsgOut;
use crate::msg_out::MsgOutSpec;
use crate::msg_out::ProcessUpdate;

verus! {

/// How many status updates the fixed sequence carries.
pub const UPDATE_COUNT: usize = 3;

/// The fixed status texts, in their declared order.
pub open spec fn status_text(i: int) -> Seq<char> {
    if i == 0 {
        "complete gate 1"@
    } else if i == 1 {
        "complete gate 2"@
    } else {
        "complete gate 3"@
    }
}

/// The wire frame that announces status `i`.
pub open spec fn status_frame(i: int) -> Seq<char> {
    frame_for(MsgOutSpec::ProcessUpdate { update: status_text(i) })
}

/// The status text of step `i`.
pub fn status_at(i: usize) -> (r: String)
    requires
        i < 3,
    ensures
        r@ == status_text(i as int),
{
    if i == 0 {
        "complete gate 1".to_owned()
    } else if i == 1 {
        "complete gate 2".to_owned()
    } else {
        "complete gate 3".to_owned()
    }
}

/// One position of the emission sequence: about to send status `next`, or
/// finished, or stopped for good by a transport failure.
#[derive(Debug, Clone, Copy, PartialEq, Eq, Structural)]
pub enum EmitterState {
    Pending { next: usize },
    Done,
    Failed,
}

/// A state the sequence can actually reach: a pending index is always a
/// status index.
pub open spec fn state_wf(s: EmitterState) -> bool {
    s matches EmitterState::Pending { next } ==> next < 3
}

/// The initial state: no status sent yet.
pub fn emitter_start() -> (s: EmitterState)
    ensures
        s == (EmitterState::Pending { next: 0usize }),
{
    EmitterState::Pending { next: 0 }
}

/// The frame the sequence must send next, or `None` once it has terminated.
pub fn pending_frame(s: &EmitterState) -> (r: Option<String>)
    ensures
        match r {
            Some(f) => ((*s) matches EmitterState::Pending { next } && next < 3 && f@
                == status_frame(next as int)),
            None => (match *s {
                EmitterState::Pending { next } => next >= 3,
                _ => true,
            }),
        },
{
    match s {
        EmitterState::Pending { next } => {
            if *next < UPDATE_COUNT {
                let update = status_at(*next);
                Some(encode_msg(&MsgOut::ProcessUpdate(ProcessUpdate { update })))
            } else {
                None
            }
        },
        _ => None,
    }
}

/// The transition on one send outcome: success moves to the next status, or
/// to `Done` after the last; failure stops the sequence for good. The
/// terminal states stay where they are.
pub fn advance(s: &EmitterState, ok: bool) -> (t: EmitterState)
    ensures
        (match *s {
            EmitterState::Pending { next } => {
                if !ok {
                    t == EmitterState::Failed
                } else if next < 2 {
                    t == (EmitterState::Pending { next: (next + 1) as usize })
                } else {
                    t == EmitterState::Done
                }
            },
            EmitterState::Done => t == EmitterState::Done,
            EmitterState::Failed => t == EmitterState::Failed,
        }),
        state_wf(*s) ==> state_wf(t),
{
    match s {
        EmitterState::Pending { next } => {
            if !ok {
                EmitterState::Failed
            } else if *next < 2 {
                EmitterState::Pending { next: *next + 1 }
            } else {
                EmitterState::Done
            }
        },
        EmitterState::Done => EmitterState::Done,
        EmitterState::Failed => EmitterState::Failed,
    }
}

/// How many sends a run attempts, when outcome `j` says whether the `j`-th
/// attempted send succeeds.
pub open spec fn attempted_count(o: Seq<bool>) -> int {
    if !o[0] {
        1
    } else if !o[1] {
        2
    } else {
        3
    }
}

/// How many frames a run delivers: the length of the longest successful
/// prefix of the sequence.
pub open spec fn delivered_count(o: Seq<bool>) -> int {
    if !o[0] {
        0
    } else if !o[1] {
        1
    } else if !o[2] {
        2
    } else {
        3
    }
}

/// The terminal state of a run.
pub open spec fn final_state(o: Seq<bool>) -> EmitterState {
    if delivered_count(o) == 3 {
        EmitterState::Done
    } else {
        EmitterState::Failed
    }
}

/// Runs the whole emission sequence against a connection whose send outcomes
/// are given: outcome `j` says whether the `j`-th attempted send succeeds.
/// Returns the delivered frames in their declared order, the number of sends
/// attempted, and the terminal state. The result is a function of the
/// outcomes alone, so two runs over different connections cannot affect each
/// other's frames or order.
pub fn emit_sequence(outcomes: &Vec<bool>) -> (r: (Vec<String>, usize, EmitterState))
    requires
        outcomes@.len() >= 3,
    ensures
        r.0@.len() == delivered_count(outcomes@),
        forall|i: int| 0 <= i < r.0@.len() ==> (#[trigger] r.0@[i])@ == status_frame(i),
        r.1 == attempted_count(outcomes@),
        r.2 == final_state(outcomes@),
{
    let mut frames: Vec<String> = Vec::new();
    let mut state = emitter_start();
    let mut attempts: usize = 0;
    loop
        invariant
            outcomes@.len() >= 3,
            state_wf(state),
            attempts <= 3,
            forall|i: int| 0 <= i < frames@.len() ==> (#[trigger] frames@[i])@ == status_frame(i),
            (match state {
                EmitterState::Pending { next } => next < 3 && attempts == next && frames@.len()
                    == next && (forall|j: int| 0 <= j < next ==> outcomes@[j]),
                EmitterState::Done => attempts == 3 && frames@.len() == 3 && (forall|j: int|
                    0 <= j < 3 ==> outcomes@[j]),
                EmitterState::Failed => 1 <= attempts && frames@.len() == attempts - 1
                    && !outcomes@[attempts - 1] && (forall|j: int|
                    0 <= j < attempts - 1 ==> outcomes@[j]),
            }),
        ensures
            attempts <= 3,
            forall|i: int| 0 <= i < frames@.len() ==> (#[trigger] frames@[i])@ == status_frame(i),
            (match state {
                EmitterState::Pending { next } => false,
                EmitterState::Done => attempts == 3 && frames@.len() == 3 && (forall|j: int|
                    0 <= j < 3 ==> outcomes@[j]),
                EmitterState::Failed => 1 <= attempts && frames@.len() == attempts - 1
                    && !outcomes@[attempts - 1] && (forall|j: int|
                    0 <= j < attempts - 1 ==> outcomes@[j]),
            }),
        decreases 3 - attempts,
    {
        let f = match pending_frame(&state) {
            None => { break },
            Some(f) => f,
        };
        let ok = outcomes[attempts];
        attempts = attempts + 1;
        state = advance(&state, ok);
        if ok {
            frames.push(f);
        }
    }
    (frames, attempts, state)
}

/// Law: when every send succeeds, the run attempts and delivers exactly the
/// three frames, in their declared order, and ends done.
pub proof fn lemma_all_sends_succeed(o: Seq<bool>)
    requires
        o.len() >= 3,
        o[0] && o[1] && o[2],
    ensures
        delivered_count(o) == 3,
        attempted_count(o) == 3,
        final_state(o) == EmitterState::Done,
{
}

/// Law: when the second send fails, exactly the first frame is delivered and
/// no third send is attempted.
pub proof fn lemma_second_send_fails(o: Seq<bool>)
    requires
        o.len() >= 3,
        o[0] && !o[1],
    ensures
        delivered_count(o) == 1,
        attempted_count(o) == 2,
        final_state(o) == EmitterState::Failed,
{
}

/// Law: when the first send fails, no frame is delivered and no later status
/// is attempted.
pub proof fn lemma_first_send_fails(o: Seq<bool>)
    requires
        o.len() >= 3,
        !o[0],
    ensures
        delivered_count(o) == 0,
        attempted_count(o) == 1,
        final_state(o) == EmitterState::Failed,
{
}

} // verus!
