use status_push::DecodeError;
use status_push::MsgOut;
use status_push::MsgOutEchoData;
use status_push::ProcessUpdate;
use status_push::decode_msg;
use status_push::encode_msg;

fn process_update(text: &str) -> MsgOut {
    MsgOut::ProcessUpdate(ProcessUpdate { update: text.to_string() })
}

fn echo(raw: &str) -> MsgOut {
    MsgOut::Echo(MsgOutEchoData { raw: raw.to_string() })
}

#[test]
fn encode_process_update_exact() {
    let frame = encode_msg(&process_update("complete gate 1"));
    assert_eq!(frame, "{\"event\":\"process_update\",\"data\":{\"update\":\"complete gate 1\"}}");
}

#[test]
fn encode_echo_exact() {
    let frame = encode_msg(&echo("{\"x\":1}"));
    assert_eq!(frame, "{\"event\":\"echo\",\"data\":{\"x\":1}}");
}

#[test]
fn encode_escapes_specials() {
    let frame = encode_msg(&process_update("a\"b\\c\nd\re\tf\u{1}g"));
    assert_eq!(
        frame,
        "{\"event\":\"process_update\",\"data\":{\"update\":\"a\\\"b\\\\c\\nd\\re\\tf\\u0001g\"}}"
    );
}

#[test]
fn round_trip_process_update() {
    let m = process_update("complete gate 2");
    assert_eq!(decode_msg(&encode_msg(&m)), Ok(m));
}

#[test]
fn round_trip_process_update_empty() {
    let m = process_update("");
    assert_eq!(decode_msg(&encode_msg(&m)), Ok(m));
}

#[test]
fn round_trip_process_update_specials() {
    let m = process_update("quote \" slash \\ nl \n cr \r tab \t ctl \u{2} end");
    assert_eq!(decode_msg(&encode_msg(&m)), Ok(m));
}

#[test]
fn round_trip_process_update_unicode() {
    let m = process_update("statut terminé ✓ 完了");
    assert_eq!(decode_msg(&encode_msg(&m)), Ok(m));
}

#[test]
fn round_trip_echo() {
    let m = echo("{\"payload\":[1,2,3]}");
    assert_eq!(decode_msg(&encode_msg(&m)), Ok(m));
}

#[test]
fn round_trip_echo_empty() {
    let m = echo("");
    assert_eq!(decode_msg(&encode_msg(&m)), Ok(m));
}

#[test]
fn decode_unknown_event_errors() {
    let r = decode_msg("{\"event\":\"bogus\",\"data\":{}}");
    assert_eq!(r, Err(DecodeError::UnknownEvent));
}

#[test]
fn decode_unknown_event_prefix_of_known_name() {
    let r = decode_msg("{\"event\":\"process\",\"data\":{\"update\":\"x\"}}");
    assert_eq!(r, Err(DecodeError::UnknownEvent));
}

#[test]
fn decode_unknown_event_extension_of_known_name() {
    let r = decode_msg("{\"event\":\"process_updates\",\"data\":{\"update\":\"x\"}}");
    assert_eq!(r, Err(DecodeError::UnknownEvent));
}

#[test]
fn decode_missing_update_field_errors() {
    let r = decode_msg("{\"event\":\"process_update\",\"data\":{}}");
    assert_eq!(r, Err(DecodeError::MalformedPayload));
}

#[test]
fn decode_wrong_payload_field_errors() {
    let r = decode_msg("{\"event\":\"process_update\",\"data\":{\"status\":\"x\"}}");
    assert_eq!(r, Err(DecodeError::MalformedPayload));
}

#[test]
fn decode_unterminated_text_errors() {
    let r = decode_msg("{\"event\":\"process_update\",\"data\":{\"update\":\"abc");
    assert_eq!(r, Err(DecodeError::MalformedPayload));
}

#[test]
fn decode_trailing_junk_errors() {
    let r = decode_msg("{\"event\":\"process_update\",\"data\":{\"update\":\"x\"}}junk");
    assert_eq!(r, Err(DecodeError::MalformedPayload));
}

#[test]
fn decode_unknown_escape_errors() {
    let r = decode_msg("{\"event\":\"process_update\",\"data\":{\"update\":\"a\\qb\"}}");
    assert_eq!(r, Err(DecodeError::MalformedPayload));
}

#[test]
fn decode_unicode_escape() {
    let r = decode_msg("{\"event\":\"process_update\",\"data\":{\"update\":\"a\\u0007b\"}}");
    assert_eq!(r, Ok(process_update("a\u{7}b")));
}

#[test]
fn decode_malformed_envelope_errors() {
    assert_eq!(decode_msg(""), Err(DecodeError::MalformedEnvelope));
    assert_eq!(decode_msg("not a frame"), Err(DecodeError::MalformedEnvelope));
    assert_eq!(decode_msg("{\"event\":\"process_update\"}"), Err(DecodeError::MalformedEnvelope));
    assert_eq!(decode_msg("{\"event\":\"no closing quote"), Err(DecodeError::MalformedEnvelope));
    assert_eq!(decode_msg("{\"event\":\"echo\",\"data\":"), Err(DecodeError::MalformedEnvelope));
}
