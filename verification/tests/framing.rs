use debug_bridge::framing::{decode_all, encode_frame, filter_payload, is_heartbeat, split_stream};

#[test]
fn frame_hello_bytes() {
    // "hello" goes on the wire as exactly h, e, l, l, o, 0x00 — nothing more.
    let frame = encode_frame("hello");
    assert_eq!(frame, vec![104u8, 101, 108, 108, 111, 0]);
}

#[test]
fn frame_empty_message() {
    assert_eq!(encode_frame(""), vec![0u8]);
}

#[test]
fn frame_non_ascii_message() {
    let frame = encode_frame("héllo");
    let mut expected = "héllo".as_bytes().to_vec();
    expected.push(0);
    assert_eq!(frame, expected);
}

#[test]
fn split_one_complete_frame() {
    let carry: Vec<u8> = Vec::new();
    let (segs, rest) = split_stream(&carry, &b"hi\x00".to_vec());
    assert_eq!(segs, vec![b"hi".to_vec()]);
    assert!(rest.is_empty());
}

#[test]
fn split_two_coalesced_frames() {
    // Two NUL-terminated messages arriving in one read are both cut out,
    // in order, never merged.
    let carry: Vec<u8> = Vec::new();
    let (segs, rest) = split_stream(&carry, &b"a\x00b\x00".to_vec());
    assert_eq!(segs, vec![b"a".to_vec(), b"b".to_vec()]);
    assert!(rest.is_empty());
}

#[test]
fn split_carries_incomplete_tail() {
    let carry: Vec<u8> = Vec::new();
    let (segs, rest) = split_stream(&carry, &b"he".to_vec());
    assert!(segs.is_empty());
    assert_eq!(rest, b"he".to_vec());

    let (segs, rest) = split_stream(&rest, &b"llo\x00wo".to_vec());
    assert_eq!(segs, vec![b"hello".to_vec()]);
    assert_eq!(rest, b"wo".to_vec());
}

#[test]
fn split_empty_chunk_keeps_carry() {
    let (segs, rest) = split_stream(&b"pa".to_vec(), &Vec::new());
    assert!(segs.is_empty());
    assert_eq!(rest, b"pa".to_vec());
}

#[test]
fn heartbeat_token_recognised() {
    assert!(is_heartbeat(&b"ping".to_vec()));
    assert!(!is_heartbeat(&b"Ping".to_vec()));
    assert!(!is_heartbeat(&b"pings".to_vec()));
    assert!(!is_heartbeat(&Vec::new()));
}

#[test]
fn filter_drops_ping_and_padding() {
    let segs = vec![b"ping".to_vec(), Vec::new(), b"x".to_vec(), b"ping".to_vec()];
    assert_eq!(filter_payload(segs), vec![b"x".to_vec()]);
}

#[test]
fn decode_all_valid_utf8() {
    let out = decode_all(&vec![b"one".to_vec(), "zwei\u{00df}".as_bytes().to_vec()]);
    assert_eq!(out, Some(vec!["one".to_string(), "zwei\u{00df}".to_string()]));
}

#[test]
fn decode_all_rejects_invalid_utf8() {
    let out = decode_all(&vec![b"ok".to_vec(), vec![0xffu8, 0xfe]]);
    assert_eq!(out, None);
}
