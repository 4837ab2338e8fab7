use embedded_recruitment_task::message::{
    decode_client, decode_server, encode_client, encode_server, AddRequest, AddResponse,
    ClientMessage, DecodeError, EchoMessage, ServerMessage,
};

fn echo(s: &str) -> EchoMessage {
    EchoMessage { content: s.to_string() }
}

#[test]
fn echo_request_bytes() {
    let m = ClientMessage::EchoMessage(echo("ping"));
    assert_eq!(encode_client(&m), vec![0x0A, 0x06, 0x0A, 0x04, b'p', b'i', b'n', b'g']);
}

#[test]
fn empty_echo_bytes() {
    let m = ClientMessage::EchoMessage(echo(""));
    assert_eq!(encode_client(&m), vec![0x0A, 0x00]);
    assert_eq!(decode_client(&[0x0A, 0x00]), Ok(m));
}

#[test]
fn add_request_bytes() {
    let m = ClientMessage::AddRequest(AddRequest { a: 2, b: 3 });
    assert_eq!(encode_client(&m), vec![0x12, 0x04, 0x08, 0x02, 0x10, 0x03]);
}

#[test]
fn zero_fields_are_left_out() {
    let m = ClientMessage::AddRequest(AddRequest { a: 0, b: 0 });
    assert_eq!(encode_client(&m), vec![0x12, 0x00]);
    let m = ClientMessage::AddRequest(AddRequest { a: 0, b: 7 });
    assert_eq!(encode_client(&m), vec![0x12, 0x02, 0x10, 0x07]);
    assert_eq!(decode_client(&[0x12, 0x02, 0x10, 0x07]), Ok(m));
}

#[test]
fn multi_byte_varint() {
    let m = ServerMessage::AddResponse(AddResponse { result: 300 });
    assert_eq!(encode_server(&m), vec![0x12, 0x03, 0x08, 0xAC, 0x02]);
    assert_eq!(decode_server(&[0x12, 0x03, 0x08, 0xAC, 0x02]), Ok(m));
}

#[test]
fn negative_int_takes_ten_bytes() {
    let m = ServerMessage::AddResponse(AddResponse { result: -1 });
    let mut want = vec![0x12, 0x0B, 0x08];
    want.extend_from_slice(&[0xFF; 9]);
    want.push(0x01);
    assert_eq!(encode_server(&m), want);
    assert_eq!(decode_server(&want), Ok(m));
}

#[test]
fn int_extremes_round_trip() {
    for (a, b) in [(i32::MIN, i32::MAX), (i32::MAX, i32::MIN), (-1, 1), (1, -1)] {
        let m = ClientMessage::AddRequest(AddRequest { a, b });
        assert_eq!(decode_client(&encode_client(&m)), Ok(m));
    }
}

#[test]
fn utf8_text() {
    let m = ServerMessage::EchoMessage(echo("é"));
    assert_eq!(encode_server(&m), vec![0x0A, 0x04, 0x0A, 0x02, 0xC3, 0xA9]);
    assert_eq!(decode_server(&[0x0A, 0x04, 0x0A, 0x02, 0xC3, 0xA9]), Ok(m));
}

#[test]
fn invalid_utf8_is_rejected() {
    assert_eq!(decode_client(&[0x0A, 0x03, 0x0A, 0x01, 0xFF]), Err(DecodeError));
}

#[test]
fn echo_round_trip() {
    for s in ["", "ping", "Hello, World!", "ünï¢ødé"] {
        let m = ClientMessage::EchoMessage(echo(s));
        assert_eq!(decode_client(&encode_client(&m)), Ok(m));
        let r = ServerMessage::EchoMessage(echo(s));
        assert_eq!(decode_server(&encode_server(&r)), Ok(r));
    }
}

#[test]
fn long_text_round_trip() {
    let s = "x".repeat(200);
    let m = ClientMessage::EchoMessage(echo(&s));
    let bytes = encode_client(&m);
    assert_eq!(&bytes[..3], &[0x0A, 0xCB, 0x01]);
    assert_eq!(decode_client(&bytes), Ok(m));
}

#[test]
fn empty_input_is_rejected() {
    assert_eq!(decode_client(&[]), Err(DecodeError));
    assert_eq!(decode_server(&[]), Err(DecodeError));
}

#[test]
fn unknown_key_is_rejected() {
    assert_eq!(decode_client(&[0x1A, 0x00]), Err(DecodeError));
}

#[test]
fn truncated_input_is_rejected() {
    assert_eq!(decode_client(&[0x0A, 0x06, 0x0A, 0x04, b'p']), Err(DecodeError));
    assert_eq!(decode_client(&[0x12, 0x04, 0x08, 0x02, 0x10]), Err(DecodeError));
}

#[test]
fn trailing_bytes_are_rejected() {
    assert_eq!(decode_client(&[0x12, 0x00, 0x00]), Err(DecodeError));
}

#[test]
fn non_shortest_varint_is_rejected() {
    assert_eq!(decode_client(&[0x12, 0x80, 0x00]), Err(DecodeError));
}

#[test]
fn explicit_zero_field_is_rejected() {
    assert_eq!(decode_client(&[0x12, 0x02, 0x08, 0x00]), Err(DecodeError));
}
