use file_tunnel::codec::{
    decode_binary, decode_text, encode_reply_binary, encode_reply_text, encode_request_text,
    ends_with_sentinel, CodecError,
};
use file_tunnel::reply::{assemble_reply, ReplyCollector};

#[test]
fn text_frame_round_trip() {
    let key = b"c42".to_vec();
    let payload = b"{\"version\":1,\"command\":{\"ReadConfig\":{}}}".to_vec();
    let framed = encode_request_text(&key, &payload).unwrap();
    assert_eq!(
        framed,
        b"003c42{\"version\":1,\"command\":{\"ReadConfig\":{}}}".to_vec()
    );
    let (k, p) = decode_text(&framed).unwrap();
    assert_eq!(k, key);
    assert_eq!(p, payload);
}

#[test]
fn text_frame_round_trip_longest_key() {
    let key = vec![b'k'; 255];
    let payload = vec![0u8, 1, 2, 255, 0, 0];
    let framed = encode_request_text(&key, &payload).unwrap();
    assert_eq!(&framed[..3], b"255");
    let (k, p) = decode_text(&framed).unwrap();
    assert_eq!(k, key);
    assert_eq!(p, payload);
}

#[test]
fn encode_rejects_bad_keys() {
    let payload = b"x".to_vec();
    assert_eq!(
        encode_request_text(&Vec::new(), &payload),
        Err(CodecError::InvalidKey)
    );
    assert_eq!(
        encode_request_text(&vec![b'a'; 256], &payload),
        Err(CodecError::InvalidKey)
    );
    assert_eq!(
        encode_reply_text(&Vec::new(), &payload),
        Err(CodecError::InvalidKey)
    );
    assert_eq!(
        encode_reply_binary(&vec![b'a'; 256], &payload),
        Err(CodecError::InvalidKey)
    );
}

#[test]
fn decode_rejects_malformed_frames() {
    assert_eq!(decode_text(&b"00".to_vec()), Err(CodecError::MalformedFrame));
    assert_eq!(
        decode_text(&b"0x3abcdef".to_vec()),
        Err(CodecError::MalformedFrame)
    );
    // the three digits announce a five-byte key, but only three bytes follow
    assert_eq!(
        decode_text(&b"005abc".to_vec()),
        Err(CodecError::MalformedFrame)
    );
    assert_eq!(decode_binary(&Vec::new()), Err(CodecError::MalformedFrame));
    assert_eq!(
        decode_binary(&vec![5u8, b'a', b'b']),
        Err(CodecError::MalformedFrame)
    );
}

#[test]
fn decode_with_zero_length_key() {
    let (k, p) = decode_text(&b"000payload".to_vec()).unwrap();
    assert_eq!(k, Vec::<u8>::new());
    assert_eq!(p, b"payload".to_vec());
}

#[test]
fn binary_frame_round_trip() {
    let key = b"cli".to_vec();
    let payload = vec![9u8, 8, 7];
    let framed = encode_reply_binary(&key, &payload).unwrap();
    assert_eq!(framed, vec![3, b'c', b'l', b'i', 9, 8, 7, 0, 0, 0, 0]);
    let (k, p) = decode_binary(&framed).unwrap();
    assert_eq!(k, key);
    assert_eq!(p, vec![9u8, 8, 7, 0, 0, 0, 0]);
}

#[test]
fn reply_text_carries_sentinel() {
    let framed = encode_reply_text(&b"c42".to_vec(), &b"done".to_vec()).unwrap();
    assert_eq!(framed, b"003c42done\0\0\0\0".to_vec());
    assert!(ends_with_sentinel(&framed));
    assert!(!ends_with_sentinel(&b"003c42done".to_vec()));
    assert!(!ends_with_sentinel(&b"\0\0\0".to_vec()));
}

#[test]
fn collector_assembles_split_reply() {
    let chunks = vec![b"AAAA".to_vec(), b"BBBB\0\0\0\0".to_vec()];
    assert_eq!(assemble_reply(&chunks), Some(b"AAAABBBB".to_vec()));
}

#[test]
fn collector_waits_for_sentinel() {
    let chunks = vec![b"AAAA".to_vec(), b"BBBB".to_vec()];
    assert_eq!(assemble_reply(&chunks), None);
    assert_eq!(assemble_reply(&Vec::new()), None);
}

#[test]
fn collector_ignores_empty_chunks() {
    let chunks = vec![Vec::new(), b"half".to_vec(), Vec::new(), b"\0\0\0\0".to_vec()];
    assert_eq!(assemble_reply(&chunks), Some(b"half".to_vec()));
}

#[test]
fn collector_stops_at_first_sentinel_boundary() {
    // four NUL bytes on an earlier chunk boundary end the reply there:
    // the in-band terminator cannot tell such a prefix apart
    let chunks = vec![b"AA\0\0\0\0".to_vec(), b"BB\0\0\0\0".to_vec()];
    assert_eq!(assemble_reply(&chunks), Some(b"AA".to_vec()));
}

#[test]
fn collector_strips_only_trailing_sentinel() {
    let chunks = vec![b"a\0\0\0\0b\0\0\0\0".to_vec()];
    assert_eq!(assemble_reply(&chunks), Some(b"a\0\0\0\0b".to_vec()));
}

#[test]
fn collector_steps_match_assembly() {
    let mut c = ReplyCollector::new();
    c.push_chunk(&b"003".to_vec());
    assert!(!c.done);
    c.push_chunk(&b"\0\0\0\0".to_vec());
    assert!(c.done);
    assert_eq!(c.body, b"003".to_vec());
}
