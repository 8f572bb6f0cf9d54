use terminal_chat::codec::{encode, DecodeError, FrameDecoder};
use terminal_chat::wire::{combine_u8s_into_u32, split_u32_into_u8s};

fn decode_all(bytes: &[u8]) -> Vec<Result<String, DecodeError>> {
    let mut d = FrameDecoder::new();
    d.feed(bytes)
}

#[test]
fn split_gives_big_endian_bytes() {
    assert_eq!(split_u32_into_u8s(0x0102_0304), [1, 2, 3, 4]);
    assert_eq!(split_u32_into_u8s(0), [0, 0, 0, 0]);
    assert_eq!(split_u32_into_u8s(u32::MAX), [255, 255, 255, 255]);
    assert_eq!(split_u32_into_u8s(300), [0, 0, 1, 44]);
}

#[test]
fn combine_reads_big_endian_bytes() {
    assert_eq!(combine_u8s_into_u32([1, 2, 3, 4]), 0x0102_0304);
    assert_eq!(combine_u8s_into_u32([0, 0, 1, 44]), 300);
    assert_eq!(combine_u8s_into_u32([255, 255, 255, 255]), u32::MAX);
}

#[test]
fn split_then_combine_is_identity() {
    for n in [0u32, 1, 255, 256, 65_535, 65_536, 16_777_216, 0xDEAD_BEEF, u32::MAX] {
        assert_eq!(combine_u8s_into_u32(split_u32_into_u8s(n)), n);
    }
}

#[test]
fn encode_prefixes_byte_length() {
    assert_eq!(encode("hi"), vec![0, 0, 0, 2, b'h', b'i']);
    assert_eq!(encode(""), vec![0, 0, 0, 0]);
    // "é" is two bytes in UTF-8.
    assert_eq!(encode("é"), vec![0, 0, 0, 2, 0xC3, 0xA9]);
}

#[test]
fn round_trip_ascii() {
    assert_eq!(decode_all(&encode("hello world")), vec![Ok("hello world".to_string())]);
}

#[test]
fn round_trip_empty() {
    assert_eq!(decode_all(&encode("")), vec![Ok(String::new())]);
}

#[test]
fn round_trip_multibyte() {
    let s = "héllo, 世界 🎉";
    assert_eq!(decode_all(&encode(s)), vec![Ok(s.to_string())]);
}

#[test]
fn byte_by_byte_delivery_matches_whole() {
    let s = "partial 🎉 delivery";
    let bytes = encode(s);
    let mut d = FrameDecoder::new();
    let mut got = Vec::new();
    for b in &bytes {
        got.extend(d.feed(&[*b]));
    }
    assert_eq!(got, decode_all(&bytes));
    assert_eq!(got, vec![Ok(s.to_string())]);
}

#[test]
fn uneven_chunks_match_whole() {
    let mut bytes = encode("first");
    bytes.extend(encode("second message"));
    bytes.extend(encode(""));
    for size in 1..bytes.len() + 1 {
        let mut d = FrameDecoder::new();
        let mut got = Vec::new();
        for chunk in bytes.chunks(size) {
            got.extend(d.feed(chunk));
        }
        assert_eq!(
            got,
            vec![Ok("first".to_string()), Ok("second message".to_string()), Ok(String::new())]
        );
    }
}

#[test]
fn incomplete_frame_waits() {
    let bytes = encode("wait");
    let mut d = FrameDecoder::new();
    assert!(d.feed(&bytes[..2]).is_empty());
    assert!(d.feed(&bytes[2..6]).is_empty());
    assert_eq!(d.feed(&bytes[6..]), vec![Ok("wait".to_string())]);
}

#[test]
fn malformed_payload_is_reported_and_stream_continues() {
    let mut d = FrameDecoder::new();
    let bad = [0u8, 0, 0, 5, 0xFF, 0xFE, 0xC3, 0x28, 0x80];
    assert_eq!(d.feed(&bad), vec![Err(DecodeError::MalformedUtf8)]);
    assert_eq!(d.feed(&encode("ok")), vec![Ok("ok".to_string())]);
}

#[test]
fn malformed_and_good_in_one_chunk() {
    let mut bytes = vec![0u8, 0, 0, 5, 0xFF, 0xFF, 0xFF, 0xFF, 0xFF];
    bytes.extend(encode("after"));
    assert_eq!(decode_all(&bytes), vec![Err(DecodeError::MalformedUtf8), Ok("after".to_string())]);
}

#[test]
fn surrogate_encoding_is_malformed() {
    // ED A0 80 would encode U+D800, a surrogate.
    assert_eq!(decode_all(&[0, 0, 0, 3, 0xED, 0xA0, 0x80]), vec![Err(DecodeError::MalformedUtf8)]);
}
