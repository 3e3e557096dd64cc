//! Encoding and decoding of the textual wire frames.
//!
//! Every outbound message is one text frame of the shape
//! `{"event":"<variant>","data":<payload>}`: a flat two-field envelope whose
//! first field names the variant and whose second field carries the variant's
//! payload. The `process_update` payload is `{"update":"<text>"}` with the
//! text escaped as a JSON string; the `echo` payload is carried verbatim.

use vstd::prelude::*;
use vstd::string::*;
use crate::msg_out::DecodeError;
use crate::msg_out::MsgOut;
use crate::msg_out::MsgOutEchoData;
use crate::msg_out::MsgOutSpec;
use crate::msg_out::ProcessUpdate;

verus! {

// ---------------------------------------------------------------------------
// String escaping
// ---------------------------------------------------------------------------

/// The lowercase hexadecimal digit for a value below sixteen.
pub open spec fn hex_digit(n: int) -> char {
    if n == 0 {
        '0'
    } else if n == 1 {
        '1'
    } else if n == 2 {
        '2'
    } else if n == 3 {
        '3'
    } else if n == 4 {
        '4'
    } else if n == 5 {
        '5'
    } else if n == 6 {
        '6'
    } else if n == 7 {
        '7'
    } else if n == 8 {
        '8'
    } else if n == 9 {
        '9'
    } else if n == 10 {
        'a'
    } else if n == 11 {
        'b'
    } else if n == 12 {
        'c'
    } else if n == 13 {
        'd'
    } else if n == 14 {
        'e'
    } else {
        'f'
    }
}

/// Whether `c` is a lowercase hexadecimal digit.
pub open spec fn is_hex_digit(c: char) -> bool {
    ('0' <= c && c <= '9') || ('a' <= c && c <= 'f')
}

/// The value of a lowercase hexadecimal digit.
pub open spec fn hex_value(c: char) -> int {
    if '0' <= c && c <= '9' {
        (c as u32) - ('0' as u32)
    } else {
        (c as u32) - ('a' as u32) + 10
    }
}

/// The escape sequence a character contributes to a JSON string value:
/// quotes, backslashes and control characters are escaped, every other
/// character stands for itself.
pub open spec fn esc_char(c: char) -> Seq<char> {
    if c == '"' {
        seq!['\\', '"']
    } else if c == '\\' {
        seq!['\\', '\\']
    } else if c == '\n' {
        seq!['\\', 'n']
    } else if c == '\r' {
        seq!['\\', 'r']
    } else if c == '\t' {
        seq!['\\', 't']
    } else if (c as u32) < 0x20 {
        seq!['\\', 'u', '0', '0', hex_digit((c as u32) as int / 16), hex_digit((c as u32) as int % 16)]
    } else {
        seq![c]
    }
}

/// The JSON string escaping of a whole text.
pub open spec fn escape_text(s: Seq<char>) -> Seq<char>
    decreases s.len(),
{
    if s.len() == 0 {
        Seq::<char>::empty()
    } else {
        esc_char(s[0]) + escape_text(s.drop_first())
    }
}

// ---------------------------------------------------------------------------
// Frame shape
// ---------------------------------------------------------------------------

/// The opening of every envelope, up to the first character of the event name.
pub open spec fn event_prefix() -> Seq<char> {
    "{\"event\":\""@
}

/// The event name of the `process_update` variant.
pub open spec fn proc_name() -> Seq<char> {
    "process_update"@
}

/// The event name of the `echo` variant.
pub open spec fn echo_name() -> Seq<char> {
    "echo"@
}

/// The text between the closing quote of the event name and the payload.
pub open spec fn data_prefix() -> Seq<char> {
    ",\"data\":"@
}

/// The opening of the `process_update` payload, up to the first character of
/// the update text.
pub open spec fn update_prefix() -> Seq<char> {
    "{\"update\":\""@
}

/// A double quote, as a one-character sequence.
pub open spec fn quote_char() -> Seq<char> {
    "\""@
}

/// The wire frame of a message: the canonical encoding that the encoder
/// produces and the decoder inverts.
pub open spec fn frame_for(m: MsgOutSpec) -> Seq<char> {
    match m {
        MsgOutSpec::ProcessUpdate { update } => event_prefix() + proc_name() + quote_char()
            + data_prefix() + update_prefix() + escape_text(update) + quote_char() + "}}"@,
        MsgOutSpec::Echo { raw } => event_prefix() + echo_name() + quote_char() + data_prefix()
            + raw + "}"@,
    }
}

// ---------------------------------------------------------------------------
// Trusted bridge to std
// ---------------------------------------------------------------------------

/// Relies on String::push: appends exactly the given character at the end.
#[verifier::external_body]
fn push_char(out: &mut String, c: char)
    ensures
        final(out)@ == old(out)@.push(c),
{
    out.push(c)
}

// ---------------------------------------------------------------------------
// Encoding
// ---------------------------------------------------------------------------

/// The escape sequences of a text, appended one character at a time from the
/// left, equal the escaping of the whole.
proof fn lemma_escape_text_push(s: Seq<char>, c: char)
    ensures
        escape_text(s.push(c)) == escape_text(s) + esc_char(c),
    decreases s.len(),
{
    if s.len() == 0 {
        assert(s.push(c)[0] == c);
        assert(s.push(c).drop_first() =~= Seq::<char>::empty());
        assert(escape_text(s.push(c)) =~= esc_char(c) + escape_text(Seq::<char>::empty()));
        assert(esc_char(c) + Seq::<char>::empty() =~= esc_char(c));
        assert(escape_text(s) + esc_char(c) =~= esc_char(c));
    } else {
        assert(s.push(c).drop_first() =~= s.drop_first().push(c));
        lemma_escape_text_push(s.drop_first(), c);
        assert(escape_text(s.push(c)) == esc_char(s[0]) + (escape_text(s.drop_first()) + esc_char(c)));
        assert(esc_char(s[0]) + (escape_text(s.drop_first()) + esc_char(c)) =~= (esc_char(s[0])
            + escape_text(s.drop_first())) + esc_char(c));
    }
}

/// The lowercase hexadecimal digit for a value below sixteen.
fn hex_digit_exec(n: u32) -> (c: char)
    requires
        n < 16,
    ensures
        c == hex_digit(n as int),
{
    if n == 0 {
        '0'
    } else if n == 1 {
        '1'
    } else if n == 2 {
        '2'
    } else if n == 3 {
        '3'
    } else if n == 4 {
        '4'
    } else if n == 5 {
        '5'
    } else if n == 6 {
        '6'
    } else if n == 7 {
        '7'
    } else if n == 8 {
        '8'
    } else if n == 9 {
        '9'
    } else if n == 10 {
        'a'
    } else if n == 11 {
        'b'
    } else if n == 12 {
        'c'
    } else if n == 13 {
        'd'
    } else if n == 14 {
        'e'
    } else {
        'f'
    }
}

/// Appends the escape sequence of one character.
fn append_escaped_char(out: &mut String, c: char)
    ensures
        final(out)@ == old(out)@ + esc_char(c),
{
    if c == '"' {
        out.append("\\\"");
        proof {
            reveal_strlit("\\\"");
            assert("\\\""@ =~= esc_char(c));
        }
    } else if c == '\\' {
        out.append("\\\\");
        proof {
            reveal_strlit("\\\\");
            assert("\\\\"@ =~= esc_char(c));
        }
    } else if c == '\n' {
        out.append("\\n");
        proof {
            reveal_strlit("\\n");
            assert("\\n"@ =~= esc_char(c));
        }
    } else if c == '\r' {
        out.append("\\r");
        proof {
            reveal_strlit("\\r");
            assert("\\r"@ =~= esc_char(c));
        }
    } else if c == '\t' {
        out.append("\\t");
        proof {
            reveal_strlit("\\t");
            assert("\\t"@ =~= esc_char(c));
        }
    } else {
        let u = c as u32;
        if u < 0x20 {
            out.append("\\u00");
            push_char(out, hex_digit_exec(u / 16));
            push_char(out, hex_digit_exec(u % 16));
            proof {
                reveal_strlit("\\u00");
                assert(final(out)@ =~= old(out)@ + esc_char(c));
            }
        } else {
            push_char(out, c);
            proof {
                assert(final(out)@ =~= old(out)@ + esc_char(c));
            }
        }
    }
}

/// Appends the JSON string escaping of `s`.
fn append_escaped(out: &mut String, s: &str)
    ensures
        final(out)@ == old(out)@ + escape_text(s@),
{
    let n = s.unicode_len();
    let mut i: usize = 0;
    while i < n
        invariant
            n == s@.len(),
            i <= n,
            out@ == old(out)@ + escape_text(s@.take(i as int)),
        decreases n - i,
    {
        let c = s.get_char(i);
        append_escaped_char(out, c);
        proof {
            assert(s@.take(i as int).push(c) =~= s@.take(i + 1 as int));
            lemma_escape_text_push(s@.take(i as int), c);
        }
        i = i + 1;
    }
    proof {
        assert(s@.take(n as int) =~= s@);
    }
}

/// Encodes a message as its one wire frame.
///
/// Every message encodes: the result is exactly the canonical frame of the
/// message's model, so encoding cannot fail.
pub fn encode_msg(m: &MsgOut) -> (r: String)
    ensures
        r@ == frame_for(m@),
{
    match m {
        MsgOut::ProcessUpdate(p) => {
            let mut out: String = "{\"event\":\"".to_owned();
            out.append("process_update");
            out.append("\"");
            out.append(",\"data\":");
            out.append("{\"update\":\"");
            append_escaped(&mut out, p.update.as_str());
            out.append("\"");
            out.append("}}");
            out
        },
        MsgOut::Echo(e) => {
            let mut out: String = "{\"event\":\"".to_owned();
            out.append("echo");
            out.append("\"");
            out.append(",\"data\":");
            out.append(e.raw.as_str());
            out.append("}");
            out
        },
    }
}

// ---------------------------------------------------------------------------
// Decoding: specification
// ---------------------------------------------------------------------------

/// Whether `e` is one of the two-character escapes.
pub open spec fn is_short_escape(e: char) -> bool {
    e == '"' || e == '\\' || e == 'n' || e == 'r' || e == 't'
}

/// The character a two-character escape stands for.
pub open spec fn unescape_short(e: char) -> char {
    if e == 'n' {
        '\n'
    } else if e == 'r' {
        '\r'
    } else if e == 't' {
        '\t'
    } else {
        e
    }
}

/// Parses a JSON string value from `t`, which starts just after the opening
/// quote. On success yields the unescaped content and the rest of `t` after
/// the closing quote. Exactly the escapes the encoder emits are accepted.
pub open spec fn parse_string_value(t: Seq<char>) -> Option<(Seq<char>, Seq<char>)>
    decreases t.len(),
{
    if t.len() == 0 {
        None
    } else if t[0] == '"' {
        Some((Seq::<char>::empty(), t.drop_first()))
    } else if t[0] == '\\' {
        if t.len() < 2 {
            None
        } else if is_short_escape(t[1]) {
            match parse_string_value(t.skip(2)) {
                None => None,
                Some(p) => Some((seq![unescape_short(t[1])] + p.0, p.1)),
            }
        } else if t[1] == 'u' {
            if t.len() < 6 {
                None
            } else if t[2] == '0' && t[3] == '0' && is_hex_digit(t[4]) && is_hex_digit(t[5])
                && hex_value(t[4]) * 16 + hex_value(t[5]) < 0x20 {
                match parse_string_value(t.skip(6)) {
                    None => None,
                    Some(p) => Some(
                        (seq![(((hex_value(t[4]) * 16 + hex_value(t[5])) as u32) as char)] + p.0, p.1),
                    ),
                }
            } else {
                None
            }
        } else {
            None
        }
    } else {
        match parse_string_value(t.drop_first()) {
            None => None,
            Some(p) => Some((seq![t[0]] + p.0, p.1)),
        }
    }
}

/// The index of the first double quote at or after `i`, if any.
pub open spec fn first_quote_at(s: Seq<char>, i: int) -> Option<int>
    decreases s.len() - i,
{
    if i < 0 || i >= s.len() {
        None
    } else if s[i] == '"' {
        Some(i)
    } else {
        first_quote_at(s, i + 1)
    }
}

/// Whether `s` carries the given event name: the name sits right after the
/// envelope opening and is closed by a double quote.
pub open spec fn has_event_name(s: Seq<char>, name: Seq<char>) -> bool {
    &&& s.len() > 10 + name.len() as int
    &&& s.subrange(10, 10 + name.len() as int) == name
    &&& s[10 + name.len() as int] == '"'
}

/// Decodes the `process_update` payload from the tail of a frame, the part
/// after the closing quote of the event name.
pub open spec fn decode_proc_tail(tail: Seq<char>) -> Result<MsgOutSpec, DecodeError> {
    if tail.len() < 8 || tail.subrange(0, 8) != data_prefix() {
        Err(DecodeError::MalformedEnvelope)
    } else {
        let body = tail.skip(8);
        if body.len() < 11 || body.subrange(0, 11) != update_prefix() {
            Err(DecodeError::MalformedPayload)
        } else {
            match parse_string_value(body.skip(11)) {
                None => Err(DecodeError::MalformedPayload),
                Some(p) => if p.1 == "}}"@ {
                    Ok(MsgOutSpec::ProcessUpdate { update: p.0 })
                } else {
                    Err(DecodeError::MalformedPayload)
                },
            }
        }
    }
}

/// Decodes the `echo` payload from the tail of a frame: the verbatim text
/// between the data marker and the closing brace.
pub open spec fn decode_echo_tail(tail: Seq<char>) -> Result<MsgOutSpec, DecodeError> {
    if tail.len() >= 9 && tail.subrange(0, 8) == data_prefix() && tail[tail.len() - 1] == '}' {
        Ok(MsgOutSpec::Echo { raw: tail.subrange(8, tail.len() - 1) })
    } else {
        Err(DecodeError::MalformedEnvelope)
    }
}

/// Decodes a wire frame: the exact inverse of [`frame_for`]. An envelope that
/// does not open with the event field is malformed; a well-formed envelope
/// with an event name outside the known vocabulary is an unknown event; a
/// recognized event with a payload of the wrong shape is a malformed payload.
pub open spec fn decode_spec(s: Seq<char>) -> Result<MsgOutSpec, DecodeError> {
    if s.len() < 10 || s.subrange(0, 10) != event_prefix() {
        Err(DecodeError::MalformedEnvelope)
    } else if has_event_name(s, proc_name()) {
        decode_proc_tail(s.skip(11 + proc_name().len() as int))
    } else if has_event_name(s, echo_name()) {
        decode_echo_tail(s.skip(11 + echo_name().len() as int))
    } else {
        match first_quote_at(s, 10) {
            Some(q) => Err(DecodeError::UnknownEvent),
            None => Err(DecodeError::MalformedEnvelope),
        }
    }
}

// ---------------------------------------------------------------------------
// Decoding: executable code
// ---------------------------------------------------------------------------

/// Relies on char::from_u32: `Some` exactly for code points outside the
/// surrogate range and at most 0x10FFFF, and then for the given value.
#[verifier::external_body]
fn char_from_u32_checked(n: u32) -> (r: Option<char>)
    ensures
        r is Some <==> (n < 0xD800 || (0xDFFF < n && n <= 0x10FFFF)),
        r is Some ==> r.unwrap() as u32 == n,
{
    char::from_u32(n)
}

/// The characters of a string, in order.
fn chars_of(s: &str) -> (r: Vec<char>)
    ensures
        r@ == s@,
{
    let n = s.unicode_len();
    let mut r: Vec<char> = Vec::new();
    let mut i: usize = 0;
    while i < n
        invariant
            n == s@.len(),
            i <= n,
            r@ == s@.take(i as int),
        decreases n - i,
    {
        r.push(s.get_char(i));
        proof {
            assert(s@.take(i as int).push(s@[i as int]) =~= s@.take(i + 1 as int));
        }
        i = i + 1;
    }
    proof {
        assert(s@.take(n as int) =~= s@);
    }
    r
}

/// Whether the characters of `pat` stand in `v` at position `pos`.
fn match_at(v: &Vec<char>, pos: usize, pat: &str) -> (b: bool)
    ensures
        b == (pos + pat@.len() <= v@.len() && v@.subrange(
            pos as int,
            pos as int + pat@.len() as int,
        ) == pat@),
{
    let m = pat.unicode_len();
    let n = v.len();
    if m > n || pos > n - m {
        return false;
    }
    let mut j: usize = 0;
    while j < m
        invariant
            m == pat@.len(),
            n == v@.len(),
            pos + m <= n,
            j <= m,
            forall|k: int| 0 <= k < j ==> v@[pos + k] == pat@[k],
        decreases m - j,
    {
        if v[pos + j] != pat.get_char(j) {
            proof {
                assert(v@.subrange(pos as int, pos as int + m as int)[j as int] != pat@[j as int]);
            }
            return false;
        }
        j = j + 1;
    }
    proof {
        assert(v@.subrange(pos as int, pos as int + m as int) =~= pat@);
    }
    true
}

/// Characterizes [`first_quote_at`] when a quote stands at `k` and none
/// before it.
proof fn lemma_first_quote_found(s: Seq<char>, start: int, k: int)
    requires
        0 <= start <= k < s.len(),
        s[k] == '"',
        forall|j: int| start <= j < k ==> s[j] != '"',
    ensures
        first_quote_at(s, start) == Some(k),
    decreases k - start,
{
    if start < k {
        lemma_first_quote_found(s, start + 1, k);
    }
}

/// Characterizes [`first_quote_at`] when no quote stands at or after `start`.
proof fn lemma_first_quote_none(s: Seq<char>, start: int)
    requires
        0 <= start,
        forall|j: int| start <= j < s.len() ==> s[j] != '"',
    ensures
        first_quote_at(s, start) is None,
    decreases s.len() - start,
{
    if start < s.len() {
        lemma_first_quote_none(s, start + 1);
    }
}

/// Finds the first double quote at or after `start`.
fn find_quote_from(v: &Vec<char>, start: usize) -> (r: Option<usize>)
    ensures
        match r {
            Some(k) => first_quote_at(v@, start as int) == Some(k as int) && start <= k
                < v@.len(),
            None => first_quote_at(v@, start as int) is None,
        },
{
    let mut i: usize = start;
    while i < v.len()
        invariant
            start <= i,
            forall|j: int| start <= j < i ==> v@[j] != '"',
        decreases v@.len() - i,
    {
        if v[i] == '"' {
            proof {
                lemma_first_quote_found(v@, start as int, i as int);
            }
            return Some(i);
        }
        i = i + 1;
    }
    proof {
        lemma_first_quote_none(v@, start as int);
    }
    None
}

/// The characters of `v` between `from` and `to`, as a string.
fn copy_range_to_string(v: &Vec<char>, from: usize, to: usize) -> (r: String)
    requires
        from <= to <= v@.len(),
    ensures
        r@ == v@.subrange(from as int, to as int),
{
    let mut r = String::new();
    let mut i: usize = from;
    while i < to
        invariant
            from <= i <= to <= v@.len(),
            r@ == v@.subrange(from as int, i as int),
        decreases to - i,
    {
        push_char(&mut r, v[i]);
        proof {
            assert(v@.subrange(from as int, i as int).push(v@[i as int]) =~= v@.subrange(
                from as int,
                i + 1 as int,
            ));
        }
        i = i + 1;
    }
    r
}

/// The value of a lowercase hexadecimal digit, or `None`.
fn hex_value_exec(c: char) -> (r: Option<u32>)
    ensures
        r is Some <==> is_hex_digit(c),
        r is Some ==> r.unwrap() == hex_value(c) && r.unwrap() < 16,
{
    let u = c as u32;
    if '0' <= c && c <= '9' {
        Some(u - ('0' as u32))
    } else if 'a' <= c && c <= 'f' {
        Some(u - ('a' as u32) + 10)
    } else {
        None
    }
}

/// Parses a JSON string value in `v` starting at `start`, just after the
/// opening quote. On success yields the unescaped content and the position
/// just after the closing quote, mirroring [`parse_string_value`].
fn parse_string_exec(v: &Vec<char>, start: usize) -> (r: Option<(String, usize)>)
    requires
        start <= v@.len(),
    ensures
        match r {
            Some(p) => {
                &&& start <= p.1 <= v@.len()
                &&& parse_string_value(v@.skip(start as int)) == Some(
                    (p.0@, v@.skip(p.1 as int)),
                )
            },
            None => parse_string_value(v@.skip(start as int)) is None,
        },
{
    let ghost whole = v@.skip(start as int);
    let mut acc = String::new();
    let mut i: usize = start;
    loop
        invariant
            start <= i <= v@.len(),
            whole == v@.skip(start as int),
            (match parse_string_value(v@.skip(i as int)) {
                None => parse_string_value(whole) is None,
                Some(p) => parse_string_value(whole) == Some((acc@ + p.0, p.1)),
            }),
        decreases v@.len() - i,
    {
        proof {
            assert(v@.skip(i as int).len() == v@.len() - i);
        }
        if i >= v.len() {
            return None;
        }
        let c = v[i];
        proof {
            assert(v@.skip(i as int)[0] == v@[i as int]);
        }
        if c == '"' {
            proof {
                assert(v@.skip(i as int).drop_first() =~= v@.skip(i + 1 as int));
                assert(acc@ + Seq::<char>::empty() =~= acc@);
            }
            return Some((acc, i + 1));
        }
        if c == '\\' {
            if i + 1 >= v.len() {
                return None;
            }
            let e = v[i + 1];
            proof {
                assert(v@.skip(i as int)[1] == v@[i + 1]);
            }
            if e == '"' || e == '\\' || e == 'n' || e == 'r' || e == 't' {
                let u = if e == 'n' {
                    '\n'
                } else if e == 'r' {
                    '\r'
                } else if e == 't' {
                    '\t'
                } else {
                    e
                };
                proof {
                    assert(u == unescape_short(e));
                    assert(v@.skip(i as int).skip(2) =~= v@.skip(i + 2 as int));
                }
                let ghost acc0 = acc@;
                push_char(&mut acc, u);
                proof {
                    match parse_string_value(v@.skip(i + 2 as int)) {
                        Some(p) => {
                            assert(acc0 + (seq![u] + p.0) =~= acc@ + p.0);
                        },
                        None => {},
                    }
                }
                i = i + 2;
            } else if e == 'u' {
                if v.len() - i < 6 {
                    return None;
                }
                let d2 = v[i + 2];
                let d3 = v[i + 3];
                let h4 = hex_value_exec(v[i + 4]);
                let h5 = hex_value_exec(v[i + 5]);
                proof {
                    assert(v@.skip(i as int)[2] == v@[i + 2]);
                    assert(v@.skip(i as int)[3] == v@[i + 3]);
                    assert(v@.skip(i as int)[4] == v@[i + 4]);
                    assert(v@.skip(i as int)[5] == v@[i + 5]);
                }
                if d2 != '0' || d3 != '0' {
                    return None;
                }
                let (hi, lo) = match (h4, h5) {
                    (Some(hi), Some(lo)) => (hi, lo),
                    _ => { return None },
                };
                let code = hi * 16 + lo;
                if code >= 0x20 {
                    return None;
                }
                let u = match char_from_u32_checked(code) {
                    Some(u) => u,
                    None => {
                        proof {
                            assert(false);
                        }
                        return None;
                    },
                };
                proof {
                    assert(u as u32 == code);
                    vstd::utf8::char_u32_cast(u, code);
                    assert(u == (((hex_value(v@[i + 4]) * 16 + hex_value(v@[i + 5])) as u32) as char));
                    assert(v@.skip(i as int).skip(6) =~= v@.skip(i + 6 as int));
                }
                let ghost acc0 = acc@;
                push_char(&mut acc, u);
                proof {
                    match parse_string_value(v@.skip(i + 6 as int)) {
                        Some(p) => {
                            assert(acc0 + (seq![u] + p.0) =~= acc@ + p.0);
                        },
                        None => {},
                    }
                }
                i = i + 6;
            } else {
                return None;
            }
        } else {
            proof {
                assert(v@.skip(i as int).drop_first() =~= v@.skip(i + 1 as int));
            }
            let ghost acc0 = acc@;
            push_char(&mut acc, c);
            proof {
                match parse_string_value(v@.skip(i + 1 as int)) {
                    Some(p) => {
                        assert(acc0 + (seq![c] + p.0) =~= acc@ + p.0);
                    },
                    None => {},
                }
            }
            i = i + 1;
        }
    }
}

/// Decodes one wire frame, the exact inverse of [`encode_msg`].
///
/// Returns `Ok` exactly on the frames [`decode_spec`] accepts, with the
/// decoded message; every other input is rejected with the error
/// [`decode_spec`] assigns to it.
pub fn decode_msg(s: &str) -> (r: Result<MsgOut, DecodeError>)
    ensures
        match r {
            Ok(m) => decode_spec(s@) == Ok::<MsgOutSpec, DecodeError>(m@),
            Err(e) => decode_spec(s@) == Err::<MsgOutSpec, DecodeError>(e),
        },
{
    let v = chars_of(s);
    proof {
        reveal_strlit("{\"event\":\"");
        assert("{\"event\":\""@.len() == 10);
    }
    if !match_at(&v, 0, "{\"event\":\"") {
        return Err(DecodeError::MalformedEnvelope);
    }
    proof {
        assert(v@.len() >= 10 && v@.subrange(0, 10) == event_prefix());
    }
    if match_at(&v, 10, "process_update\"") {
        proof {
            lemma_proc_marker(v@);
        }
        decode_proc_exec(&v)
    } else if match_at(&v, 10, "echo\"") {
        proof {
            lemma_not_proc_marker(v@);
            lemma_echo_marker(v@);
        }
        decode_echo_exec(&v)
    } else {
        proof {
            lemma_not_proc_marker(v@);
            lemma_not_echo_marker(v@);
        }
        match find_quote_from(&v, 10) {
            Some(_) => Err(DecodeError::UnknownEvent),
            None => Err(DecodeError::MalformedEnvelope),
        }
    }
}

/// The `process_update` marker text equals the event name followed by its
/// closing quote.
proof fn lemma_proc_marker_split()
    ensures
        "process_update\""@ =~= proc_name() + quote_char(),
        proc_name().len() == 14,
{
    reveal_strlit("process_update\"");
    reveal_strlit("process_update");
    reveal_strlit("\"");
}

/// The `echo` marker text equals the event name followed by its closing
/// quote.
proof fn lemma_echo_marker_split()
    ensures
        "echo\""@ =~= echo_name() + quote_char(),
        echo_name().len() == 4,
{
    reveal_strlit("echo\"");
    reveal_strlit("echo");
    reveal_strlit("\"");
}

/// A match of the `process_update` marker at position ten gives the event
/// name of the frame.
proof fn lemma_proc_marker(s: Seq<char>)
    requires
        10 + "process_update\""@.len() <= s.len(),
        s.subrange(10, 10 + "process_update\""@.len() as int) == "process_update\""@,
    ensures
        has_event_name(s, proc_name()),
        proc_name().len() == 14,
{
    lemma_proc_marker_split();
    reveal_strlit("\"");
    assert(s.subrange(10, 25)[14] == s[24]);
    assert(s.subrange(10, 24) =~= s.subrange(10, 25).take(14));
    assert(s.subrange(10, 25).take(14) =~= proc_name());
}

/// A match of the `echo` marker at position ten gives the event name of the
/// frame.
proof fn lemma_echo_marker(s: Seq<char>)
    requires
        10 + "echo\""@.len() <= s.len(),
        s.subrange(10, 10 + "echo\""@.len() as int) == "echo\""@,
    ensures
        has_event_name(s, echo_name()),
        echo_name().len() == 4,
{
    lemma_echo_marker_split();
    reveal_strlit("\"");
    assert(s.subrange(10, 15)[4] == s[14]);
    assert(s.subrange(10, 14) =~= s.subrange(10, 15).take(4));
    assert(s.subrange(10, 15).take(4) =~= echo_name());
}

/// A failed match of the `process_update` marker refutes that event name.
proof fn lemma_not_proc_marker(s: Seq<char>)
    requires
        !(10 + "process_update\""@.len() <= s.len() && s.subrange(
            10,
            10 + "process_update\""@.len() as int,
        ) == "process_update\""@),
    ensures
        !has_event_name(s, proc_name()),
{
    lemma_proc_marker_split();
    reveal_strlit("\"");
    if has_event_name(s, proc_name()) {
        assert(s.subrange(10, 25) =~= s.subrange(10, 24) + s.subrange(24, 25));
        assert(s.subrange(24, 25) =~= quote_char());
        assert(s.subrange(10, 25) =~= proc_name() + quote_char());
    }
}

/// A failed match of the `echo` marker refutes that event name.
proof fn lemma_not_echo_marker(s: Seq<char>)
    requires
        !(10 + "echo\""@.len() <= s.len() && s.subrange(10, 10 + "echo\""@.len() as int)
            == "echo\""@),
    ensures
        !has_event_name(s, echo_name()),
{
    lemma_echo_marker_split();
    reveal_strlit("\"");
    if has_event_name(s, echo_name()) {
        assert(s.subrange(10, 15) =~= s.subrange(10, 14) + s.subrange(14, 15));
        assert(s.subrange(14, 15) =~= quote_char());
        assert(s.subrange(10, 15) =~= echo_name() + quote_char());
    }
}

/// Decodes the tail of a `process_update` frame, from position 25 on.
fn decode_proc_exec(v: &Vec<char>) -> (r: Result<MsgOut, DecodeError>)
    requires
        v@.len() >= 25,
    ensures
        match r {
            Ok(m) => decode_proc_tail(v@.skip(25)) == Ok::<MsgOutSpec, DecodeError>(m@),
            Err(e) => e != DecodeError::UnknownEvent && decode_proc_tail(v@.skip(25)) == Err::<
                MsgOutSpec,
                DecodeError,
            >(e),
        },
{
    let ghost tail = v@.skip(25);
    if !match_at(v, 25, ",\"data\":") {
        proof {
            reveal_strlit(",\"data\":");
            assert(tail.len() >= 8 && tail.subrange(0, 8) == data_prefix() ==> tail.subrange(0, 8)
                =~= v@.subrange(25, 33));
        }
        return Err(DecodeError::MalformedEnvelope);
    }
    proof {
        reveal_strlit(",\"data\":");
        assert(v@.subrange(25, 33) =~= tail.subrange(0, 8));
    }
    let ghost body = tail.skip(8);
    proof {
        assert(body =~= v@.skip(33));
    }
    if !match_at(v, 33, "{\"update\":\"") {
        proof {
            reveal_strlit("{\"update\":\"");
            assert(body.len() >= 11 && body.subrange(0, 11) == update_prefix() ==> body.subrange(
                0,
                11,
            ) =~= v@.subrange(33, 44));
        }
        return Err(DecodeError::MalformedPayload);
    }
    proof {
        reveal_strlit("{\"update\":\"");
        assert(v@.subrange(33, 44) =~= body.subrange(0, 11));
    }
    proof {
        assert(body.skip(11) =~= v@.skip(44));
    }
    match parse_string_exec(v, 44) {
        None => Err(DecodeError::MalformedPayload),
        Some((content, end)) => {
            if match_at(v, end, "}}") && v.len() - end == 2 {
                proof {
                    reveal_strlit("}}");
                    assert(v@.skip(end as int) =~= v@.subrange(end as int, end + 2 as int));
                }
                Ok(MsgOut::ProcessUpdate(ProcessUpdate { update: content }))
            } else {
                proof {
                    reveal_strlit("}}");
                    if v@.skip(end as int) == "}}"@ {
                        assert(v@.skip(end as int).len() == 2);
                        assert(v@.subrange(end as int, end + 2 as int) =~= v@.skip(end as int));
                    }
                }
                Err(DecodeError::MalformedPayload)
            }
        },
    }
}

/// Decodes the tail of an `echo` frame, from position 15 on.
fn decode_echo_exec(v: &Vec<char>) -> (r: Result<MsgOut, DecodeError>)
    requires
        v@.len() >= 15,
    ensures
        match r {
            Ok(m) => decode_echo_tail(v@.skip(15)) == Ok::<MsgOutSpec, DecodeError>(m@),
            Err(e) => e != DecodeError::UnknownEvent && decode_echo_tail(v@.skip(15)) == Err::<
                MsgOutSpec,
                DecodeError,
            >(e),
        },
{
    let ghost tail = v@.skip(15);
    let n = v.len();
    proof {
        reveal_strlit(",\"data\":");
        assert(",\"data\":"@.len() == 8);
    }
    if match_at(v, 15, ",\"data\":") && n >= 24 && v[n - 1] == '}' {
        proof {
            assert(tail.subrange(0, 8) =~= v@.subrange(15, 23));
            assert(tail[tail.len() - 1] == v@[v@.len() - 1]);
            assert(tail.subrange(8, tail.len() - 1) =~= v@.subrange(23, v@.len() - 1));
        }
        let raw = copy_range_to_string(v, 23, n - 1);
        Ok(MsgOut::Echo(MsgOutEchoData { raw }))
    } else {
        proof {
            if tail.len() >= 9 && tail.subrange(0, 8) == data_prefix() && tail[tail.len() - 1]
                == '}' {
                assert(v@.len() >= 24);
                assert(tail.subrange(0, 8) =~= v@.subrange(15, 23));
                assert(v@[v@.len() - 1] == tail[tail.len() - 1]);
            }
        }
        Err(DecodeError::MalformedEnvelope)
    }
}

// ---------------------------------------------------------------------------
// Laws
// ---------------------------------------------------------------------------

/// Each hexadecimal digit round-trips through its character.
proof fn lemma_hex_digit_value(d: int)
    requires
        0 <= d < 16,
    ensures
        is_hex_digit(hex_digit(d)),
        hex_value(hex_digit(d)) == d,
{
}

/// Parsing picks an escaped text back out in front of whatever follows the
/// closing quote.
proof fn lemma_parse_escaped(u: Seq<char>, t: Seq<char>)
    ensures
        parse_string_value(escape_text(u) + quote_char() + t) == Some::<(Seq<char>, Seq<char>)>(
            (u, t),
        ),
    decreases u.len(),
{
    reveal_strlit("\"");
    let s = escape_text(u) + quote_char() + t;
    if u.len() == 0 {
        assert(s =~= quote_char() + t);
        assert(s[0] == '"');
        assert(s.drop_first() =~= t);
        assert(parse_string_value(s) == Some::<(Seq<char>, Seq<char>)>((Seq::<char>::empty(), t)));
        assert(u =~= Seq::<char>::empty());
    } else {
        let c = u[0];
        let rest = u.drop_first();
        lemma_parse_escaped(rest, t);
        let w = escape_text(rest) + quote_char() + t;
        assert(escape_text(u) == esc_char(c) + escape_text(rest));
        assert(s =~= esc_char(c) + w);
        if c == '"' || c == '\\' {
            assert(s[0] == '\\' && s[1] == c);
            assert(is_short_escape(c) && unescape_short(c) == c);
            assert(s.skip(2) =~= w);
            assert(seq![c] + rest =~= u);
        } else if c == '\n' {
            assert(s[0] == '\\' && s[1] == 'n');
            assert(s.skip(2) =~= w);
            assert(seq![c] + rest =~= u);
        } else if c == '\r' {
            assert(s[0] == '\\' && s[1] == 'r');
            assert(s.skip(2) =~= w);
            assert(seq![c] + rest =~= u);
        } else if c == '\t' {
            assert(s[0] == '\\' && s[1] == 't');
            assert(s.skip(2) =~= w);
            assert(seq![c] + rest =~= u);
        } else if (c as u32) < 0x20 {
            let n = (c as u32) as int;
            assert(s[0] == '\\' && s[1] == 'u' && s[2] == '0' && s[3] == '0');
            assert(s[4] == hex_digit(n / 16) && s[5] == hex_digit(n % 16));
            assert(!is_short_escape('u'));
            lemma_hex_digit_value(n / 16);
            lemma_hex_digit_value(n % 16);
            assert(hex_value(s[4]) * 16 + hex_value(s[5]) == n);
            assert((n as u32) == c as u32);
            vstd::utf8::char_u32_cast(c, c as u32);
            assert(((n as u32) as char) == c);
            assert(s.skip(6) =~= w);
            assert(seq![c] + rest =~= u);
        } else {
            assert(s[0] == c);
            assert(s.drop_first() =~= w);
            assert(seq![c] + rest =~= u);
        }
    }
}

/// Reveals the length and quote-freedom of every fixed fragment of a frame.
proof fn lemma_fragments()
    ensures
        event_prefix().len() == 10,
        proc_name().len() == 14,
        echo_name().len() == 4,
        data_prefix().len() == 8,
        update_prefix().len() == 11,
        quote_char().len() == 1,
        quote_char()[0] == '"',
        "}}"@.len() == 2,
        "}"@.len() == 1,
        "}"@[0] == '}',
        forall|j: int| 0 <= j < proc_name().len() ==> #[trigger] proc_name()[j] != '"',
        forall|j: int| 0 <= j < echo_name().len() ==> #[trigger] echo_name()[j] != '"',
{
    reveal_strlit("{\"event\":\"");
    reveal_strlit("process_update");
    reveal_strlit("echo");
    reveal_strlit(",\"data\":");
    reveal_strlit("{\"update\":\"");
    reveal_strlit("\"");
    reveal_strlit("}}");
    reveal_strlit("}");
    assert forall|j: int| 0 <= j < proc_name().len() implies #[trigger] proc_name()[j] != '"' by {
        if j == 0 {
            assert(proc_name()[0] == 'p');
        } else if j == 1 {
            assert(proc_name()[1] == 'r');
        } else if j == 2 {
            assert(proc_name()[2] == 'o');
        } else if j == 3 {
            assert(proc_name()[3] == 'c');
        } else if j == 4 {
            assert(proc_name()[4] == 'e');
        } else if j == 5 {
            assert(proc_name()[5] == 's');
        } else if j == 6 {
            assert(proc_name()[6] == 's');
        } else if j == 7 {
            assert(proc_name()[7] == '_');
        } else if j == 8 {
            assert(proc_name()[8] == 'u');
        } else if j == 9 {
            assert(proc_name()[9] == 'p');
        } else if j == 10 {
            assert(proc_name()[10] == 'd');
        } else if j == 11 {
            assert(proc_name()[11] == 'a');
        } else if j == 12 {
            assert(proc_name()[12] == 't');
        } else {
            assert(proc_name()[13] == 'e');
        }
    }
    assert forall|j: int| 0 <= j < echo_name().len() implies #[trigger] echo_name()[j] != '"' by {
        if j == 0 {
            assert(echo_name()[0] == 'e');
        } else if j == 1 {
            assert(echo_name()[1] == 'c');
        } else if j == 2 {
            assert(echo_name()[2] == 'h');
        } else {
            assert(echo_name()[3] == 'o');
        }
    }
}

/// Round-trip law: decoding the frame of any message yields that message
/// back, for both variants and every payload.
pub proof fn lemma_round_trip(m: MsgOutSpec)
    ensures
        decode_spec(frame_for(m)) == Ok::<MsgOutSpec, DecodeError>(m),
{
    lemma_fragments();
    let s = frame_for(m);
    match m {
        MsgOutSpec::ProcessUpdate { update } => {
            assert(s.subrange(0, 10) =~= event_prefix());
            assert(s.subrange(10, 24) =~= proc_name());
            assert(s[24] == '"');
            assert(has_event_name(s, proc_name()));
            let tail = s.skip(25);
            assert(tail.subrange(0, 8) =~= data_prefix());
            let body = tail.skip(8);
            assert(body =~= s.skip(33));
            assert(body.subrange(0, 11) =~= update_prefix());
            assert(body.skip(11) =~= escape_text(update) + quote_char() + "}}"@);
            lemma_parse_escaped(update, "}}"@);
            assert(decode_proc_tail(tail) == Ok::<MsgOutSpec, DecodeError>(
                MsgOutSpec::ProcessUpdate { update },
            ));
        },
        MsgOutSpec::Echo { raw } => {
            assert(s.subrange(0, 10) =~= event_prefix());
            assert(s.len() == 24 + raw.len());
            if has_event_name(s, proc_name()) {
                assert(s.subrange(10, 24)[4] == s[14]);
                assert(s[14] == '"');
                assert(proc_name()[4] != '"');
            }
            assert(s.subrange(10, 14) =~= echo_name());
            assert(s[14] == '"');
            assert(has_event_name(s, echo_name()));
            let tail = s.skip(15);
            assert(tail.len() == 9 + raw.len());
            assert(tail.subrange(0, 8) =~= data_prefix());
            assert(tail[tail.len() - 1] == s[s.len() - 1]);
            let pre = event_prefix() + echo_name() + quote_char() + data_prefix() + raw;
            assert(pre.len() == 23 + raw.len());
            assert(s == pre + "}"@);
            assert(s[pre.len() as int] == "}"@[0]);
            assert(s[s.len() - 1] == '}');
            assert(tail.subrange(8, tail.len() - 1) =~= raw);
        },
    }
}

/// Rejection law: an envelope whose event name is outside the known
/// vocabulary decodes to the unknown-event error, whatever its payload; no
/// unknown name silently maps to a known variant.
pub proof fn lemma_unknown_event_rejected(name: Seq<char>, rest: Seq<char>)
    requires
        !name.contains('"'),
        name != proc_name(),
        name != echo_name(),
    ensures
        decode_spec(event_prefix() + name + quote_char() + rest) == Err::<
            MsgOutSpec,
            DecodeError,
        >(DecodeError::UnknownEvent),
{
    lemma_fragments();
    let s = event_prefix() + name + quote_char() + rest;
    let ln = name.len() as int;
    assert(s.subrange(0, 10) =~= event_prefix());
    assert(s[10 + ln] == '"');
    assert(forall|j: int| 0 <= j < ln ==> s[10 + j] == name[j]);
    assert(forall|j: int| 0 <= j < ln ==> name[j] != '"');
    if has_event_name(s, proc_name()) {
        if ln < 14 {
            assert(s.subrange(10, 24)[ln] == s[10 + ln]);
            assert(proc_name()[ln] != '"');
        } else if ln == 14 {
            assert(s.subrange(10, 24) =~= name);
        } else {
            assert(s.subrange(10, 24)[14] == s[24]);
            assert(s[24] == name[14]);
        }
    }
    if has_event_name(s, echo_name()) {
        if ln < 4 {
            assert(s.subrange(10, 14)[ln] == s[10 + ln]);
            assert(echo_name()[ln] != '"');
        } else if ln == 4 {
            assert(s.subrange(10, 14) =~= name);
        } else {
            assert(s.subrange(10, 14)[4] == s[14]);
            assert(s[14] == name[4]);
        }
    }
    lemma_first_quote_found(s, 10, 10 + ln);
}

/// Rejection law: a `process_update` frame whose data object does not open
/// with the `update` field decodes to the malformed-payload error.
pub proof fn lemma_missing_update_rejected(data_part: Seq<char>)
    requires
        !(data_part.len() >= 11 && data_part.subrange(0, 11) == update_prefix()),
    ensures
        decode_spec(event_prefix() + proc_name() + quote_char() + data_prefix() + data_part)
            == Err::<MsgOutSpec, DecodeError>(DecodeError::MalformedPayload),
{
    lemma_fragments();
    let s = event_prefix() + proc_name() + quote_char() + data_prefix() + data_part;
    assert(s.subrange(0, 10) =~= event_prefix());
    assert(s.subrange(10, 24) =~= proc_name());
    assert(s[24] == '"');
    assert(has_event_name(s, proc_name()));
    let tail = s.skip(25);
    assert(tail.subrange(0, 8) =~= data_prefix());
    let body = tail.skip(8);
    assert(body =~= data_part);
}

} // verus!
