use line_kv::{parse_frame, Command, DecodeError, LineCodec};

fn bytes(s: &str) -> Vec<u8> {
    s.as_bytes().to_vec()
}

#[test]
fn two_frames_decode_in_order() {
    let mut codec = LineCodec;
    let mut buf = bytes("get foo\nset a b\n");
    assert_eq!(codec.decode(&mut buf), Ok(Some(Command::Get("foo".to_string()))));
    assert_eq!(
        codec.decode(&mut buf),
        Ok(Some(Command::Put("a".to_string(), "b".to_string())))
    );
    assert!(buf.is_empty());
    assert_eq!(codec.decode(&mut buf), Ok(None));
}

#[test]
fn partial_frame_waits_for_newline() {
    let mut codec = LineCodec;
    let mut buf = bytes("ge");
    assert_eq!(codec.decode(&mut buf), Ok(None));
    assert_eq!(buf, bytes("ge"));
    buf.extend_from_slice(b"t x\n");
    assert_eq!(codec.decode(&mut buf), Ok(Some(Command::Get("x".to_string()))));
    assert!(buf.is_empty());
}

#[test]
fn bytes_after_the_newline_stay_buffered() {
    let mut codec = LineCodec;
    let mut buf = bytes("quit\nget");
    assert_eq!(codec.decode(&mut buf), Ok(Some(Command::Quit)));
    assert_eq!(buf, bytes("get"));
}

#[test]
fn encoded_set_request_decodes_back() {
    let mut codec = LineCodec;
    let mut buf = Vec::new();
    codec.encode("set k v".to_string(), &mut buf);
    assert_eq!(buf, bytes("set k v\n"));
    assert_eq!(
        codec.decode(&mut buf),
        Ok(Some(Command::Put("k".to_string(), "v".to_string())))
    );
    assert!(buf.is_empty());
}

#[test]
fn empty_response_encodes_to_nothing() {
    let mut codec = LineCodec;
    let mut buf = bytes("x");
    codec.encode(String::new(), &mut buf);
    assert_eq!(buf, bytes("x"));
}

#[test]
fn response_gets_a_newline() {
    let mut codec = LineCodec;
    let mut buf = Vec::new();
    codec.encode("héllo".to_string(), &mut buf);
    assert_eq!(buf, vec![b'h', 0xc3, 0xa9, b'l', b'l', b'o', b'\n']);
}

#[test]
fn empty_frame_is_missing_command() {
    let mut codec = LineCodec;
    let mut buf = bytes("\nget a\n");
    assert_eq!(codec.decode(&mut buf), Err(DecodeError::MissingCommand));
    assert_eq!(buf, bytes("get a\n"));
}

#[test]
fn get_without_key_is_an_error() {
    let mut codec = LineCodec;
    let mut buf = bytes("get\n");
    assert_eq!(codec.decode(&mut buf), Err(DecodeError::MissingKey));
    assert!(buf.is_empty());
}

#[test]
fn set_without_value_is_an_error() {
    assert_eq!(parse_frame(&bytes("set a")), Err(DecodeError::MissingKeyOrValue));
    assert_eq!(parse_frame(&bytes("set")), Err(DecodeError::MissingKeyOrValue));
}

#[test]
fn unknown_command_is_named() {
    let r = parse_frame(&bytes("del a"));
    assert_eq!(r, Err(DecodeError::UnknownCommand("del".to_string())));
    assert_eq!(r.unwrap_err().message(), "unknown command: del");
}

#[test]
fn commands_are_case_sensitive() {
    assert_eq!(
        parse_frame(&bytes("GET a")),
        Err(DecodeError::UnknownCommand("GET".to_string()))
    );
}

#[test]
fn invalid_text_is_an_error() {
    let mut codec = LineCodec;
    let mut buf = vec![b'g', b'e', b't', b' ', 0xff, b'\n', b'q'];
    assert_eq!(codec.decode(&mut buf), Err(DecodeError::InvalidText));
    assert_eq!(buf, bytes("q"));
}

#[test]
fn extra_fields_are_ignored() {
    assert_eq!(parse_frame(&bytes("get a b")), Ok(Command::Get("a".to_string())));
    assert_eq!(
        parse_frame(&bytes("set a b c")),
        Ok(Command::Put("a".to_string(), "b".to_string()))
    );
    assert_eq!(parse_frame(&bytes("quit now")), Ok(Command::Quit));
}

#[test]
fn double_space_gives_an_empty_field() {
    assert_eq!(parse_frame(&bytes("get  a")), Ok(Command::Get(String::new())));
    assert_eq!(
        parse_frame(&bytes("set  v")),
        Ok(Command::Put(String::new(), "v".to_string()))
    );
}

#[test]
fn non_ascii_key_and_value_decode() {
    assert_eq!(
        parse_frame(&bytes("set clé valeur·1")),
        Ok(Command::Put("clé".to_string(), "valeur·1".to_string()))
    );
}

#[test]
fn error_messages() {
    assert_eq!(DecodeError::MissingCommand.message(), "missing command");
    assert_eq!(DecodeError::MissingKey.message(), "get: missing key");
    assert_eq!(DecodeError::MissingKeyOrValue.message(), "set: missing key and/or value");
}
