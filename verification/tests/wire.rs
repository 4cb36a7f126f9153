use orion_chat::wire::{decode_text, message_text, strip_line_ending};

#[test]
fn strips_two_trailing_bytes() {
    let data = b"hello\r\nrest";
    assert_eq!(strip_line_ending(data, 7), b"hello".to_vec());
}

#[test]
fn strips_to_empty_line() {
    assert_eq!(strip_line_ending(b"\r\n", 2), Vec::<u8>::new());
}

#[test]
fn empty_read_gives_no_message() {
    let data = [0u8; 8];
    assert!(message_text(&data, 0).is_none());
}

#[test]
fn message_text_decodes_line() {
    let mut data = [0u8; 16];
    data[..8].copy_from_slice("héllo\r\n".as_bytes());
    let text = message_text(&data, 8).unwrap().unwrap();
    assert_eq!(text, "héllo");
}

#[test]
fn message_text_reports_invalid_utf8() {
    let data = [b'a', 0xff, b'\r', b'\n'];
    let err = message_text(&data, 4).unwrap().unwrap_err();
    assert_eq!(err.valid_up_to(), 1);
}

#[test]
fn decode_text_matches_std() {
    assert_eq!(decode_text("zé".as_bytes()).unwrap(), "zé");
    assert!(decode_text(&[0xc3]).is_err());
}

#[test]
fn strip_line_ending_up_to_whole_buffer() {
    assert_eq!(strip_line_ending(b"abc", 5), b"abc".to_vec());
    assert_eq!(message_text(b"ok", 4).unwrap().unwrap(), "ok");
}
