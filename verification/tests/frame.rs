use room_relay::frame::{
    bytes_equal, find_delimiter, parse_frame, ParsedFrame, ProtocolError, RoomName, DELIMITER,
};

fn parts(frame: &[u8]) -> Result<(Vec<u8>, Vec<u8>), ProtocolError> {
    match parse_frame(frame) {
        ParsedFrame::Valid { room, payload } => Ok((room.as_bytes().to_vec(), payload)),
        ParsedFrame::Malformed(reason) => Err(reason),
    }
}

#[test]
fn delimiter_is_a_colon() {
    assert_eq!(DELIMITER, b':');
}

#[test]
fn a_frame_is_cut_at_its_colon() {
    assert_eq!(parts(b"lobby:hi"), Ok((b"lobby".to_vec(), b"hi".to_vec())));
}

#[test]
fn a_frame_is_cut_at_its_first_colon_only() {
    assert_eq!(parts(b"lobby:a:b:c"), Ok((b"lobby".to_vec(), b"a:b:c".to_vec())));
    assert_eq!(parts(b"r::"), Ok((b"r".to_vec(), b":".to_vec())));
}

#[test]
fn a_payload_may_be_empty() {
    assert_eq!(parts(b"lobby:"), Ok((b"lobby".to_vec(), Vec::new())));
}

#[test]
fn a_frame_without_colon_is_malformed() {
    assert_eq!(parts(b"lobby"), Err(ProtocolError::MissingDelimiter));
    assert_eq!(parts(b""), Err(ProtocolError::MissingDelimiter));
}

#[test]
fn a_frame_with_an_empty_room_is_malformed() {
    assert_eq!(parts(b":hi"), Err(ProtocolError::EmptyRoom));
    assert_eq!(parts(b":"), Err(ProtocolError::EmptyRoom));
}

#[test]
fn a_frame_that_is_not_utf8_is_malformed() {
    assert_eq!(parts(&[b'a', b':', 0xff]), Err(ProtocolError::InvalidUtf8));
    assert_eq!(parts(&[0xc3, b':', b'x']), Err(ProtocolError::InvalidUtf8));
    assert_eq!(parts(&[0x80]), Err(ProtocolError::InvalidUtf8));
}

#[test]
fn bad_utf8_comes_before_a_missing_colon() {
    assert_eq!(parts(&[0xff, 0xfe]), Err(ProtocolError::InvalidUtf8));
    assert_eq!(parts(&[b':', 0xff]), Err(ProtocolError::InvalidUtf8));
}

#[test]
fn a_frame_may_hold_any_utf8_text() {
    let frame = "방:안녕하세요".as_bytes();
    assert_eq!(parts(frame), Ok(("방".as_bytes().to_vec(), "안녕하세요".as_bytes().to_vec())));
}

#[test]
fn framing_and_parsing_undo_each_other() {
    for (room, payload) in [("lobby", "hi"), ("a", ""), ("arena", "x:y"), ("방", "é:ü")] {
        let mut frame = room.as_bytes().to_vec();
        frame.push(DELIMITER);
        frame.extend_from_slice(payload.as_bytes());
        assert_eq!(parts(&frame), Ok((room.as_bytes().to_vec(), payload.as_bytes().to_vec())));
    }
}

#[test]
fn a_room_name_keeps_its_bytes() {
    let name = RoomName::new(b"lobby").unwrap();
    assert_eq!(name.as_bytes(), b"lobby");
    let copy = name.clone();
    assert_eq!(copy.as_bytes(), b"lobby");
    assert!(name.same(&copy));
}

#[test]
fn room_names_differ_by_their_bytes() {
    let lobby = RoomName::new(b"lobby").unwrap();
    let arena = RoomName::new(b"arena").unwrap();
    let lobb = RoomName::new(b"lobb").unwrap();
    assert!(!lobby.same(&arena));
    assert!(!lobby.same(&lobb));
    assert!(lobby.same(&RoomName::new(b"lobby").unwrap()));
}

#[test]
fn an_empty_room_name_is_refused() {
    assert_eq!(RoomName::new(b"").err(), Some(ProtocolError::EmptyRoom));
}

#[test]
fn a_room_name_with_a_colon_is_refused() {
    assert_eq!(RoomName::new(b"a:b").err(), Some(ProtocolError::DelimiterInRoom));
    assert_eq!(RoomName::new(b":").err(), Some(ProtocolError::DelimiterInRoom));
}

#[test]
fn a_room_name_that_is_not_utf8_is_refused() {
    assert_eq!(RoomName::new(&[0xff]).err(), Some(ProtocolError::InvalidUtf8));
    assert_eq!(RoomName::new(&[0xff, b':']).err(), Some(ProtocolError::InvalidUtf8));
    assert_eq!(RoomName::new(&[0xe2, 0x82]).err(), Some(ProtocolError::InvalidUtf8));
}

#[test]
fn find_delimiter_finds_the_first_colon() {
    assert_eq!(find_delimiter(b"ab:cd:ef"), Some(2));
    assert_eq!(find_delimiter(b":"), Some(0));
    assert_eq!(find_delimiter(b"abc"), None);
    assert_eq!(find_delimiter(b""), None);
}

#[test]
fn bytes_equal_compares_bytes() {
    assert!(bytes_equal(b"", b""));
    assert!(bytes_equal(b"abc", b"abc"));
    assert!(!bytes_equal(b"abc", b"abd"));
    assert!(!bytes_equal(b"abc", b"ab"));
    assert!(!bytes_equal(b"", b"a"));
}
