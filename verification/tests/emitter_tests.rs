use status_push::EmitterState;
use status_push::advance;
use status_push::emit_sequence;
use status_push::emitter_start;
use status_push::pending_frame;
use status_push::status_at;

fn gate_frame(n: u32) -> String {
    format!("{{\"event\":\"process_update\",\"data\":{{\"update\":\"complete gate {}\"}}}}", n)
}

#[test]
fn status_texts() {
    assert_eq!(status_at(0), "complete gate 1");
    assert_eq!(status_at(1), "complete gate 2");
    assert_eq!(status_at(2), "complete gate 3");
}

#[test]
fn emitter_all_sends_succeed() {
    let (frames, attempts, state) = emit_sequence(&vec![true, true, true]);
    assert_eq!(frames, vec![gate_frame(1), gate_frame(2), gate_frame(3)]);
    assert_eq!(attempts, 3);
    assert_eq!(state, EmitterState::Done);
}

#[test]
fn emitter_second_send_fails() {
    let (frames, attempts, state) = emit_sequence(&vec![true, false, true]);
    assert_eq!(frames, vec![gate_frame(1)]);
    assert_eq!(attempts, 2);
    assert_eq!(state, EmitterState::Failed);
}

#[test]
fn emitter_first_send_fails() {
    let (frames, attempts, state) = emit_sequence(&vec![false, true, true]);
    assert_eq!(frames, Vec::<String>::new());
    assert_eq!(attempts, 1);
    assert_eq!(state, EmitterState::Failed);
}

#[test]
fn emitter_third_send_fails() {
    let (frames, attempts, state) = emit_sequence(&vec![true, true, false]);
    assert_eq!(frames, vec![gate_frame(1), gate_frame(2)]);
    assert_eq!(attempts, 3);
    assert_eq!(state, EmitterState::Failed);
}

#[test]
fn state_machine_walks_in_order() {
    let mut state = emitter_start();
    assert_eq!(state, EmitterState::Pending { next: 0 });
    for n in 1..=3u32 {
        let frame = pending_frame(&state).expect("a status should be pending");
        assert_eq!(frame, gate_frame(n));
        state = advance(&state, true);
    }
    assert_eq!(state, EmitterState::Done);
    assert!(pending_frame(&state).is_none());
}

#[test]
fn failure_is_terminal() {
    let mut state = emitter_start();
    state = advance(&state, true);
    state = advance(&state, false);
    assert_eq!(state, EmitterState::Failed);
    assert!(pending_frame(&state).is_none());
    state = advance(&state, true);
    assert_eq!(state, EmitterState::Failed);
}

#[test]
fn interleaved_runs_do_not_interfere() {
    // Two independent sequences advanced alternately, as two connections'
    // tasks would interleave: each still yields exactly its own frames in
    // order.
    let mut first = emitter_start();
    let mut second = emitter_start();
    let mut first_frames: Vec<String> = Vec::new();
    let mut second_frames: Vec<String> = Vec::new();
    let mut second_attempts = 0u32;
    loop {
        let mut moved = false;
        if let Some(frame) = pending_frame(&first) {
            first_frames.push(frame);
            first = advance(&first, true);
            moved = true;
        }
        if let Some(frame) = pending_frame(&second) {
            let ok = second_attempts != 1;
            second_attempts += 1;
            if ok {
                second_frames.push(frame);
            }
            second = advance(&second, ok);
            moved = true;
        }
        if !moved {
            break;
        }
    }
    assert_eq!(first_frames, vec![gate_frame(1), gate_frame(2), gate_frame(3)]);
    assert_eq!(first, EmitterState::Done);
    // The second connection failed its second send; its truncation does not
    // touch the first connection's frames, and the other way round.
    assert_eq!(second_frames, vec![gate_frame(1)]);
    assert_eq!(second_attempts, 2);
    assert_eq!(second, EmitterState::Failed);
}
